//! From a finished generation to a response.
use vstd::prelude::*;

use crate::server::engine::{Finish, SubmitError};
use crate::server::metrics::{
    completed, failed, recorded, started, submitted, ttft_recorded, Metrics,
};
use crate::server::prepare::{
    ApiError, validate_model, is_unknown_model, model_accepted, BAD_REQUEST,
    INTERNAL_SERVER_ERROR, SERVICE_UNAVAILABLE,
};
use crate::server::types::{
    ChatChoice, ChatCompletionResponse, ChatMessageOut, CompletionChoice, CompletionResponse,
    EmbeddingRequest, ModelInfo, ModelsResponse, ResponseOutputContent, ResponseOutputItem,
    ResponsesResponse, ResponsesUsage, ToolCall, UsageInfo,
};

verus! {

// ── Outcomes ─────────────────────────────────────────────────────────────────

/// What a client is told about how a generation ended. There is no word for one that
/// was cut short: the client holds only a part of the completion.
pub open spec fn reason(finish: Finish) -> Option<Seq<char>> {
    match finish {
        Finish::Stop => Some("stop"@),
        Finish::Length => Some("length"@),
        Finish::Truncated => None,
        Finish::Incomplete => None,
    }
}

/// The text, if there is one.
pub open spec fn word(s: Option<&'static str>) -> Option<Seq<char>> {
    match s {
        Some(s) => Some(s@),
        None => None,
    }
}

/// What a client is told about how a generation ended.
pub fn finish_reason_for(finish: Finish) -> (r: Option<&'static str>)
    ensures
        word(r) == reason(finish),
{
    match finish {
        Finish::Stop => Some("stop"),
        Finish::Length => Some("length"),
        Finish::Truncated => None,
        Finish::Incomplete => None,
    }
}

/// Only a generation whose every token was delivered is presented as finished.
pub proof fn law_cut_generations_have_no_reason(finish: Finish)
    ensures
        reason(finish) is None <==> finish == Finish::Truncated || finish == Finish::Incomplete,
{
}

// ── Submission ───────────────────────────────────────────────────────────────

/// Count a submission, or tell the client why it was turned away.
pub fn on_submission(r: Result<(), SubmitError>, metrics: &mut Metrics) -> (e: Result<
    (),
    ApiError,
>)
    ensures
        match (r, e) {
            (Ok(()), Ok(())) => *final(metrics) == submitted(*old(metrics)),
            (Err(why), Err(e)) => {
                &&& *final(metrics) == failed(*old(metrics))
                &&& e.status == SERVICE_UNAVAILABLE
                &&& e.message@ == match why {
                    SubmitError::Busy => "Server is at capacity; retry shortly"@,
                    SubmitError::Shutdown => "Inference engine unavailable"@,
                }
            },
            _ => false,
        },
{
    match r {
        Ok(()) => {
            metrics.on_submit();
            Ok(())
        },
        Err(why) => {
            metrics.record_failure();
            let message = match why {
                SubmitError::Busy => "Server is at capacity; retry shortly".to_string(),
                SubmitError::Shutdown => "Inference engine unavailable".to_string(),
            };
            Err(ApiError { status: SERVICE_UNAVAILABLE, message })
        },
    }
}

// ── Collection ───────────────────────────────────────────────────────────────

/// The tokens of a response that is sent in one piece.
#[derive(Debug)]
pub struct Collector {
    pub generated_ids: Vec<u32>,
}

/// A generation whose tokens have all been read.
#[derive(Debug)]
pub struct CompletedGeneration {
    pub text: String,
    pub completion_tokens: usize,
    /// `None` where the generation was cut short.
    pub finish_reason: Option<&'static str>,
}

/// The counters once a request has got its first token, `us` microseconds after its
/// start.
pub open spec fn first_token(m: Metrics, us: u64) -> Metrics {
    started(ttft_recorded(m, us))
}

impl Collector {
    /// Nothing collected yet.
    pub fn new() -> (c: Self)
        ensures
            c.generated_ids@.len() == 0,
    {
        Collector { generated_ids: Vec::new() }
    }

    /// Take in a token that arrived `us` microseconds after the start.
    pub fn take(&mut self, token: u32, metrics: &mut Metrics, us: u64)
        ensures
            final(self).generated_ids@ == old(self).generated_ids@.push(token),
            *final(metrics) == if old(self).generated_ids@.len() == 0 {
                first_token(*old(metrics), us)
            } else {
                *old(metrics)
            },
    {
        if self.generated_ids.len() == 0 {
            metrics.record_ttft_us(us);
            metrics.on_first_token();
        }
        self.generated_ids.push(token);
    }

    /// The generation is over: `text` is what the tokens say, `ms` milliseconds have
    /// passed.
    pub fn close(&self, text: String, finish: Finish, metrics: &mut Metrics, ms: u64) -> (c:
        CompletedGeneration)
        ensures
            c.text == text,
            c.completion_tokens == self.generated_ids@.len(),
            word(c.finish_reason) == reason(finish),
            *final(metrics) == completed(
                recorded(*old(metrics), self.generated_ids@.len() as u64, ms),
            ),
    {
        let n: usize = self.generated_ids.len();
        metrics.record(n as u64, ms);
        metrics.on_complete();
        CompletedGeneration {
            text,
            completion_tokens: n,
            finish_reason: finish_reason_for(finish),
        }
    }
}

/// What a client is told of a response that was cut short.
pub open spec fn is_truncation(e: ApiError) -> bool {
    &&& e.status == INTERNAL_SERVER_ERROR
    &&& e.message@ == "The response was truncated before it could be fully collected"@
}

fn truncation(metrics: &mut Metrics) -> (e: ApiError)
    ensures
        is_truncation(e),
        *final(metrics) == failed(*old(metrics)),
{
    metrics.record_failure();
    ApiError {
        status: INTERNAL_SERVER_ERROR,
        message: "The response was truncated before it could be fully collected".to_string(),
    }
}

fn usage(prompt_tokens: usize, completion_tokens: usize) -> (u: UsageInfo)
    requires
        prompt_tokens + completion_tokens <= usize::MAX,
    ensures
        u == (UsageInfo {
            prompt_tokens,
            completion_tokens,
            total_tokens: (prompt_tokens + completion_tokens) as usize,
        }),
{
    UsageInfo {
        prompt_tokens,
        completion_tokens,
        total_tokens: prompt_tokens + completion_tokens,
    }
}

// ── Responses in one piece ───────────────────────────────────────────────────

/// The response to a completion request. One that was cut short would look like a
/// short completion, so it is an error.
pub fn completion_response(
    id: String,
    created: u64,
    model: String,
    prompt_len: usize,
    done: CompletedGeneration,
    metrics: &mut Metrics,
) -> (r: Result<CompletionResponse, ApiError>)
    requires
        prompt_len + done.completion_tokens <= usize::MAX,
    ensures
        match r {
            Ok(c) => {
                &&& done.finish_reason is Some
                &&& *final(metrics) == *old(metrics)
                &&& c.id == id
                &&& c.object@ == "text_completion"@
                &&& c.created == created
                &&& c.model == model
                &&& c.choices@.len() == 1
                &&& c.choices@[0].text == done.text
                &&& c.choices@[0].index == 0
                &&& Some(c.choices@[0].finish_reason) == done.finish_reason
                &&& c.usage == (UsageInfo {
                    prompt_tokens: prompt_len,
                    completion_tokens: done.completion_tokens,
                    total_tokens: (prompt_len + done.completion_tokens) as usize,
                })
            },
            Err(e) => {
                &&& done.finish_reason is None
                &&& is_truncation(e)
                &&& *final(metrics) == failed(*old(metrics))
            },
        },
{
    match done.finish_reason {
        Some(finish_reason) => {
            let mut choices: Vec<CompletionChoice> = Vec::new();
            choices.push(CompletionChoice { text: done.text, index: 0, finish_reason });
            Ok(
                CompletionResponse {
                    id,
                    object: "text_completion",
                    created,
                    model,
                    choices,
                    usage: usage(prompt_len, done.completion_tokens),
                },
            )
        },
        None => Err(truncation(metrics)),
    }
}

/// The response to a chat request. An output that calls a tool is sent as a call, not
/// as text.
pub fn chat_response(
    id: String,
    created: u64,
    model: String,
    prompt_len: usize,
    done: CompletedGeneration,
    tool_calls: Option<Vec<ToolCall>>,
    metrics: &mut Metrics,
) -> (r: Result<ChatCompletionResponse, ApiError>)
    requires
        prompt_len + done.completion_tokens <= usize::MAX,
    ensures
        match r {
            Ok(c) => {
                &&& done.finish_reason is Some
                &&& *final(metrics) == *old(metrics)
                &&& c.id == id
                &&& c.object@ == "chat.completion"@
                &&& c.created == created
                &&& c.model == model
                &&& c.choices@.len() == 1
                &&& c.choices@[0].index == 0
                &&& c.choices@[0].message.role@ == "assistant"@
                &&& c.choices@[0].message.tool_calls == tool_calls
                &&& c.choices@[0].message.content == (if tool_calls is Some {
                    None::<String>
                } else {
                    Some(done.text)
                })
                &&& Some(c.choices@[0].finish_reason@) == (if tool_calls is Some {
                    Some("tool_calls"@)
                } else {
                    word(done.finish_reason)
                })
                &&& c.usage == (UsageInfo {
                    prompt_tokens: prompt_len,
                    completion_tokens: done.completion_tokens,
                    total_tokens: (prompt_len + done.completion_tokens) as usize,
                })
            },
            Err(e) => {
                &&& done.finish_reason is None
                &&& is_truncation(e)
                &&& *final(metrics) == failed(*old(metrics))
            },
        },
{
    match done.finish_reason {
        Some(finish_reason) => {
            let mut choices: Vec<ChatChoice> = Vec::new();
            let usage = usage(prompt_len, done.completion_tokens);
            match tool_calls {
                Some(calls) => {
                    choices.push(
                        ChatChoice {
                            index: 0,
                            message: ChatMessageOut {
                                role: "assistant",
                                content: None,
                                tool_calls: Some(calls),
                            },
                            finish_reason: "tool_calls",
                        },
                    );
                },
                None => {
                    choices.push(
                        ChatChoice {
                            index: 0,
                            message: ChatMessageOut {
                                role: "assistant",
                                content: Some(done.text),
                                tool_calls: None,
                            },
                            finish_reason,
                        },
                    );
                },
            }
            Ok(
                ChatCompletionResponse {
                    id,
                    object: "chat.completion",
                    created,
                    model,
                    choices,
                    usage,
                },
            )
        },
        None => Err(truncation(metrics)),
    }
}

/// `r` is a responses object with these contents.
pub open spec fn is_response(
    r: ResponsesResponse,
    id: Seq<char>,
    message_id: Seq<char>,
    created_at: u64,
    model: Seq<char>,
    text: Seq<char>,
    prompt_tokens: int,
    output_tokens: int,
    status: Seq<char>,
) -> bool {
    &&& r.id@ == id
    &&& r.object@ == "response"@
    &&& r.created_at == created_at
    &&& r.status@ == status
    &&& r.model@ == model
    &&& r.output_text@ == text
    &&& r.usage.input_tokens == prompt_tokens
    &&& r.usage.output_tokens == output_tokens
    &&& r.usage.total_tokens == prompt_tokens + output_tokens
    &&& r.output@.len() == 1
    &&& r.output@[0].id@ == message_id
    &&& r.output@[0].item_type@ == "message"@
    &&& r.output@[0].status@ == status
    &&& r.output@[0].role@ == "assistant"@
    &&& r.output@[0].content@.len() == 1
    &&& r.output@[0].content@[0].content_type@ == "output_text"@
    &&& r.output@[0].content@[0].text@ == text
    &&& r.output@[0].content@[0].annotations@.len() == 0
}

/// A responses object: one message with one text.
pub fn build_responses_response(
    id: String,
    message_id: String,
    created_at: u64,
    model: String,
    output_text: String,
    prompt_tokens: usize,
    output_tokens: usize,
    status: &'static str,
) -> (r: ResponsesResponse)
    requires
        prompt_tokens + output_tokens <= usize::MAX,
    ensures
        is_response(
            r,
            id@,
            message_id@,
            created_at,
            model@,
            output_text@,
            prompt_tokens as int,
            output_tokens as int,
            status@,
        ),
{
    let mut content: Vec<ResponseOutputContent> = Vec::new();
    content.push(
        ResponseOutputContent {
            content_type: "output_text",
            text: output_text.clone(),
            annotations: Vec::new(),
        },
    );
    let mut output: Vec<ResponseOutputItem> = Vec::new();
    output.push(
        ResponseOutputItem {
            id: message_id,
            item_type: "message",
            status,
            role: "assistant",
            content,
        },
    );
    ResponsesResponse {
        id,
        object: "response",
        created_at,
        status,
        model,
        output,
        output_text,
        usage: ResponsesUsage {
            input_tokens: prompt_tokens,
            output_tokens,
            total_tokens: prompt_tokens + output_tokens,
        },
    }
}

/// The status of a responses object: a generation that ran out of room is incomplete,
/// which is no failure.
pub open spec fn status_for(finish_reason: Seq<char>) -> Seq<char> {
    if finish_reason == "length"@ {
        "incomplete"@
    } else {
        "completed"@
    }
}

/// The status of a responses object.
pub fn response_status(finish_reason: &str) -> (s: &'static str)
    ensures
        s@ == status_for(finish_reason@),
{
    if crate::text::same_text(finish_reason, "length") {
        "incomplete"
    } else {
        "completed"
    }
}

/// The response to a responses request.
pub fn responses_response(
    id: String,
    message_id: String,
    created_at: u64,
    model: String,
    prompt_len: usize,
    done: CompletedGeneration,
    metrics: &mut Metrics,
) -> (r: Result<ResponsesResponse, ApiError>)
    requires
        prompt_len + done.completion_tokens <= usize::MAX,
    ensures
        match r {
            Ok(c) => {
                &&& done.finish_reason is Some
                &&& *final(metrics) == *old(metrics)
                &&& is_response(
                    c,
                    id@,
                    message_id@,
                    created_at,
                    model@,
                    done.text@,
                    prompt_len as int,
                    done.completion_tokens as int,
                    status_for(done.finish_reason->0@),
                )
            },
            Err(e) => {
                &&& done.finish_reason is None
                &&& is_truncation(e)
                &&& *final(metrics) == failed(*old(metrics))
            },
        },
{
    match done.finish_reason {
        Some(finish_reason) => Ok(
            build_responses_response(
                id,
                message_id,
                created_at,
                model,
                done.text,
                prompt_len,
                done.completion_tokens,
                response_status(finish_reason),
            ),
        ),
        None => Err(truncation(metrics)),
    }
}

// ── Models and embeddings ────────────────────────────────────────────────────

/// The list of models: the one that is served.
pub fn list_models(model_name: &str) -> (r: ModelsResponse)
    ensures
        r.object@ == "list"@,
        r.data@.len() == 1,
        r.data@[0].id@ == model_name@,
        r.data@[0].object@ == "model"@,
        r.data@[0].created == 0,
        r.data@[0].owned_by@ == "glint"@,
{
    let mut data: Vec<ModelInfo> = Vec::new();
    data.push(
        ModelInfo { id: model_name.to_string(), object: "model", created: 0, owned_by: "glint" },
    );
    ModelsResponse { object: "list", data }
}

/// The texts to embed, if the request can be served.
pub fn embedding_texts<'a>(req: &'a EmbeddingRequest, loaded: &str) -> (r: Result<
    Vec<&'a str>,
    ApiError,
>)
    ensures
        match r {
            Ok(v) => {
                &&& model_accepted(req.model@, loaded@)
                &&& v@.len() > 0
                &&& v@.len() == req.input.texts().len()
                &&& forall|i: int| 0 <= i < v@.len() ==> (#[trigger] v@[i])@ == req.input.texts()[i]
            },
            Err(e) => if !model_accepted(req.model@, loaded@) {
                is_unknown_model(e, req.model@, loaded@)
            } else {
                &&& req.input.texts().len() == 0
                &&& e.status == BAD_REQUEST
                &&& e.message@ == "input must not be empty"@
            },
        },
{
    match validate_model(req.model.as_str(), loaded) {
        Ok(()) => {},
        Err(e) => {
            return Err(e);
        },
    }
    let v = req.input.as_strings();
    if v.len() == 0 {
        return Err(
            ApiError { status: BAD_REQUEST, message: "input must not be empty".to_string() },
        );
    }
    Ok(v)
}

/// The sum of some lengths.
pub open spec fn total(lens: Seq<usize>) -> nat
    decreases lens.len(),
{
    if lens.len() == 0 {
        0
    } else {
        total(lens.drop_last()) + lens.last() as nat
    }
}

proof fn lemma_total_grows(lens: Seq<usize>, k: int)
    requires
        0 <= k <= lens.len(),
    ensures
        total(lens.take(k)) <= total(lens),
    decreases lens.len() - k,
{
    if k < lens.len() {
        assert(lens.take(k + 1).drop_last() =~= lens.take(k));
        lemma_total_grows(lens, k + 1);
    } else {
        assert(lens.take(k) =~= lens);
    }
}

/// What embedding texts of these lengths costs: their tokens, and nothing generated.
pub fn embedding_usage(lens: &[usize]) -> (u: UsageInfo)
    requires
        total(lens@) <= usize::MAX,
    ensures
        u.prompt_tokens == total(lens@),
        u.completion_tokens == 0,
        u.total_tokens == total(lens@),
{
    let mut sum: usize = 0;
    let mut i: usize = 0;
    assert(lens@.take(0).len() == 0);
    while i < lens.len()
        invariant
            i <= lens@.len(),
            total(lens@) <= usize::MAX,
            sum == total(lens@.take(i as int)),
        decreases lens@.len() - i,
    {
        proof {
            assert(lens@.take(i + 1).drop_last() =~= lens@.take(i as int));
            lemma_total_grows(lens@, i + 1);
        }
        sum = sum + lens[i];
        i = i + 1;
    }
    assert(lens@.take(i as int) =~= lens@);
    UsageInfo { prompt_tokens: sum, completion_tokens: 0, total_tokens: sum }
}

/// A generation that the model ended is reported as `stop` and is complete; one that ran out
/// of room is reported as `length` and is incomplete.
pub proof fn law_only_room_makes_a_response_incomplete(finish: Finish)
    requires
        reason(finish) is Some,
    ensures
        finish == Finish::Stop <==> reason(finish)->0 == "stop"@,
        finish == Finish::Length <==> reason(finish)->0 == "length"@,
        finish == Finish::Length <==> status_for(reason(finish)->0) == "incomplete"@,
        finish == Finish::Stop <==> status_for(reason(finish)->0) == "completed"@,
{
    reveal_strlit("stop");
    reveal_strlit("length");
    reveal_strlit("incomplete");
    reveal_strlit("completed");
    assert("stop"@.len() != "length"@.len());
    assert("incomplete"@.len() != "completed"@.len());
}

/// The tokens that embedding texts costs, in whatever order and grouping they are counted.
pub proof fn law_every_text_is_counted(a: Seq<usize>, b: Seq<usize>)
    ensures
        total(a + b) == total(a) + total(b),
        a.len() == 1 ==> total(a) == a[0],
        a.len() == 0 ==> total(a) == 0,
    decreases b.len(),
{
    if a.len() == 1 {
        assert(a.drop_last().len() == 0);
        assert(total(a.drop_last()) == 0);
    }
    if b.len() == 0 {
        assert(a + b =~= a);
    } else {
        law_every_text_is_counted(a, b.drop_last());
        assert((a + b).drop_last() =~= a + b.drop_last());
    }
}

} // verus!
