//! From a request to a generation: what is accepted, and with which limits.
use vstd::prelude::*;

use crate::server::constraint::ConstraintSpec;
use crate::server::metrics::{failed, Metrics};
use crate::server::state::AppState;
use crate::server::types::{
    ChatMessage, ErrorDetail, ErrorResponse, ResponsesRequest, Said, SamplingParams, all_plainly,
    conversation,
};
use crate::text::{decimal, push_decimal, same_text};

verus! {

/// A refusal: the HTTP status and what the client is told.
#[derive(Debug)]
pub struct ApiError {
    pub status: u16,
    pub message: String,
}

/// The body of a refusal.
pub fn api_error(e: &ApiError) -> (r: ErrorResponse)
    ensures
        r.error.message@ == e.message@,
        r.error.error_type@ == "api_error"@,
        r.error.code == e.status,
{
    ErrorResponse {
        error: ErrorDetail {
            message: e.message.clone(),
            error_type: "api_error",
            code: e.status,
        },
    }
}

/// Answer a request that is turned away before it is submitted: every error response
/// counts as a failure, and nothing else is counted.
pub fn answer_refusal(e: &ApiError, metrics: &mut Metrics) -> (r: ErrorResponse)
    ensures
        *final(metrics) == failed(*old(metrics)),
        r.error.message@ == e.message@,
        r.error.error_type@ == "api_error"@,
        r.error.code == e.status,
{
    metrics.record_failure();
    api_error(e)
}

pub const BAD_REQUEST: u16 = 400;

pub const NOT_FOUND: u16 = 404;

pub const INTERNAL_SERVER_ERROR: u16 = 500;

pub const SERVICE_UNAVAILABLE: u16 = 503;

// ── The model ────────────────────────────────────────────────────────────────

/// True if a request for model `requested` is served by model `loaded`.
pub open spec fn model_accepted(requested: Seq<char>, loaded: Seq<char>) -> bool {
    ||| requested == loaded
    ||| requested == "default"@
    ||| requested == "auto"@
    ||| requested == "glint"@
    ||| requested.len() == 0
}

/// `e` says that a model is not there.
pub open spec fn is_unknown_model(e: ApiError, requested: Seq<char>, loaded: Seq<char>) -> bool {
    &&& e.status == NOT_FOUND
    &&& e.message@ == "model '"@ + requested + "' not found; available: "@ + loaded
}

/// Check that the requested model is the one that is served. Some names, and none,
/// stand for whatever is served.
pub fn validate_model(requested: &str, loaded: &str) -> (r: Result<(), ApiError>)
    ensures
        match r {
            Ok(()) => model_accepted(requested@, loaded@),
            Err(e) => !model_accepted(requested@, loaded@) && is_unknown_model(
                e,
                requested@,
                loaded@,
            ),
        },
{
    if same_text(requested, loaded) || same_text(requested, "default") || same_text(
        requested,
        "auto",
    ) || same_text(requested, "glint") || requested.unicode_len() == 0 {
        Ok(())
    } else {
        let mut message = String::new();
        message.append("model '");
        message.append(requested);
        message.append("' not found; available: ");
        message.append(loaded);
        Err(ApiError { status: NOT_FOUND, message })
    }
}

// ── Limits and knobs ─────────────────────────────────────────────────────────

/// The bit pattern of the number one.
pub const ONE: u32 = 0x3f80_0000;

/// The sampling knobs of a generation; floating-point numbers as bit patterns.
#[derive(Clone, Copy, Debug, PartialEq, Eq, Structural)]
pub struct SamplerSettings {
    pub temperature: u32,
    pub top_p: u32,
    pub top_k: usize,
    pub repeat_penalty: u32,
    pub seed: Option<u64>,
}

/// What is given, or else the default.
pub open spec fn or_else<A>(given: Option<A>, default: A) -> A {
    match given {
        Some(a) => a,
        None => default,
    }
}

/// The knobs of a request with their defaults: temperature, nucleus and repetition
/// penalty one, no limit on the number of candidates.
pub fn sampler_config_from_params(p: SamplingParams) -> (s: SamplerSettings)
    ensures
        s == (SamplerSettings {
            temperature: or_else(p.temperature, ONE),
            top_p: or_else(p.top_p, ONE),
            top_k: or_else(p.top_k, 0),
            repeat_penalty: or_else(p.repeat_penalty, ONE),
            seed: p.seed,
        }),
{
    SamplerSettings {
        temperature: p.temperature.unwrap_or(ONE),
        top_p: p.top_p.unwrap_or(ONE),
        top_k: p.top_k.unwrap_or(0),
        repeat_penalty: p.repeat_penalty.unwrap_or(ONE),
        seed: p.seed,
    }
}

/// A generation that is ready to be submitted.
#[derive(Debug)]
pub struct PreparedGeneration {
    pub prompt_tokens: Vec<u32>,
    pub prompt_len: usize,
    pub max_tokens: usize,
    pub sampler: SamplerSettings,
    pub eos: u32,
    pub model_name: String,
    pub constraint: Option<ConstraintSpec>,
}

/// The tokens that may be generated: what the client asks for, a hundred by default,
/// as far as the context window has room behind the prompt.
pub open spec fn token_budget(asked: Option<usize>, prompt_len: nat, context: nat) -> int {
    let wanted = or_else(asked, 100) as int;
    if wanted < context - prompt_len {
        wanted
    } else {
        context - prompt_len
    }
}

/// What a prompt that leaves no room is refused with.
pub open spec fn too_long(prompt_len: nat, context: nat) -> Seq<char> {
    "prompt ("@ + decimal(prompt_len) + " tokens) exceeds model context window ("@ + decimal(
        context,
    ) + " tokens)"@
}

/// Prepare a generation from an encoded prompt.
pub fn prepare_generation_from_prompt(
    state: &AppState,
    requested_model: &str,
    prompt_tokens: Vec<u32>,
    max_tokens: Option<usize>,
    sampling: SamplingParams,
) -> (r: Result<PreparedGeneration, ApiError>)
    ensures
        match r {
            Ok(p) => {
                &&& model_accepted(requested_model@, state.model_name@)
                &&& prompt_tokens@.len() < state.config.context_length
                &&& p.prompt_tokens == prompt_tokens
                &&& p.prompt_len == prompt_tokens@.len()
                &&& p.max_tokens == token_budget(
                    max_tokens,
                    prompt_tokens@.len(),
                    state.config.context_length as nat,
                )
                &&& p.sampler == (SamplerSettings {
                    temperature: or_else(sampling.temperature, ONE),
                    top_p: or_else(sampling.top_p, ONE),
                    top_k: or_else(sampling.top_k, 0),
                    repeat_penalty: or_else(sampling.repeat_penalty, ONE),
                    seed: sampling.seed,
                })
                &&& p.eos == state.eos_token
                &&& p.model_name@ == state.model_name@
                &&& p.constraint is None
            },
            Err(e) => if !model_accepted(requested_model@, state.model_name@) {
                is_unknown_model(e, requested_model@, state.model_name@)
            } else {
                &&& prompt_tokens@.len() >= state.config.context_length
                &&& e.status == BAD_REQUEST
                &&& e.message@ == too_long(
                    prompt_tokens@.len(),
                    state.config.context_length as nat,
                )
            },
        },
{
    validate_model(requested_model, state.model_name.as_str())?;
    let prompt_len: usize = prompt_tokens.len();
    let context: u64 = state.config.context_length as u64;
    if prompt_len as u64 >= context {
        let mut message = String::new();
        message.append("prompt (");
        push_decimal(&mut message, prompt_len as u64);
        message.append(" tokens) exceeds model context window (");
        push_decimal(&mut message, context);
        message.append(" tokens)");
        return Err(ApiError { status: BAD_REQUEST, message });
    }
    let room: u64 = context - prompt_len as u64;
    let asked: usize = max_tokens.unwrap_or(100);
    let max_tokens: usize = if (asked as u64) < room {
        asked
    } else {
        room as usize
    };
    Ok(
        PreparedGeneration {
            prompt_tokens,
            prompt_len,
            max_tokens,
            sampler: sampler_config_from_params(sampling),
            eos: state.eos_token,
            model_name: state.model_name.clone(),
            constraint: None,
        },
    )
}

/// Prompt and budget always fit the context window together, so that a prepared
/// generation never outgrows its cache.
pub proof fn law_prepared_generation_fits_the_context(
    asked: Option<usize>,
    prompt_len: nat,
    context: nat,
)
    requires
        prompt_len < context,
    ensures
        0 <= token_budget(asked, prompt_len, context),
        prompt_len + token_budget(asked, prompt_len, context) <= context,
{
}

/// The budget is the smaller of what is asked for and what there is room for. Who asks for
/// nothing gets what who asks for a hundred gets.
pub proof fn law_the_budget_is_the_smaller_of_both(asked: usize, prompt_len: nat, context: nat)
    ensures
        token_budget(Some(asked), prompt_len, context) <= asked,
        token_budget(Some(asked), prompt_len, context) <= context - prompt_len,
        token_budget(Some(asked), prompt_len, context) == asked || token_budget(
            Some(asked),
            prompt_len,
            context,
        ) == context - prompt_len,
        token_budget(None, prompt_len, context) == token_budget(Some(100), prompt_len, context),
{
}

// ── Conversations ────────────────────────────────────────────────────────────

/// One message of a prompt.
#[derive(Debug)]
pub struct PromptMessage {
    pub role: String,
    pub content: String,
}

/// Texts in a row, separated.
pub open spec fn joined(items: Seq<Seq<char>>, separator: Seq<char>) -> Seq<char>
    decreases items.len(),
{
    if items.len() == 0 {
        Seq::empty()
    } else if items.len() == 1 {
        items[0]
    } else {
        joined(items.drop_last(), separator) + separator + items.last()
    }
}

/// The characters of some texts.
pub open spec fn views(v: Seq<String>) -> Seq<Seq<char>> {
    Seq::new(v.len(), |i: int| v[i]@)
}

/// The part of a system prompt that lists the tools, given as JSON.
pub open spec fn tools_prompt(tools: Seq<Seq<char>>) -> Seq<char> {
    "\nYou have access to the following tools/functions:\n```json\n[\n"@ + joined(tools, ",\n"@)
        + "\n]\n```\nTo call a tool, respond with a JSON object format: `{\"name\": \"function_name\", \"arguments\": {\"param\": \"value\"}}`.\n"@
}

/// List the tools for the model. Each is given as JSON.
pub fn format_tools_system_prompt(tools: &[String]) -> (s: String)
    ensures
        s@ == tools_prompt(views(tools@)),
{
    let mut s = String::new();
    s.append("\nYou have access to the following tools/functions:\n```json\n[\n");
    let ghost head = s@;
    let mut i: usize = 0;
    assert(head + joined(views(tools@).take(0), ",\n"@) =~= head);
    while i < tools.len()
        invariant
            i <= tools@.len(),
            s@ == head + joined(views(tools@).take(i as int), ",\n"@),
        decreases tools@.len() - i,
    {
        let ghost before = views(tools@).take(i as int);
        let ghost now = views(tools@).take(i + 1);
        proof {
            assert(now.drop_last() =~= before);
            assert(now.last() == tools@[i as int]@);
        }
        if i > 0 {
            s.append(",\n");
        }
        s.append(tools[i].as_str());
        proof {
            assert(s@ =~= head + joined(now, ",\n"@));
        }
        i = i + 1;
    }
    assert(views(tools@).take(i as int) =~= views(tools@));
    s.append(
        "\n]\n```\nTo call a tool, respond with a JSON object format: `{\"name\": \"function_name\", \"arguments\": {\"param\": \"value\"}}`.\n",
    );
    s
}

/// What is added to system messages: the list of tools, if there are any.
pub open spec fn tools_part(tools: Option<&[String]>) -> Option<Seq<char>> {
    match tools {
        Some(t) => if t@.len() > 0 {
            Some(tools_prompt(views(t@)))
        } else {
            None
        },
        None => None,
    }
}

/// One message of the prompt.
pub open spec fn prompted(m: ChatMessage, extra: Option<Seq<char>>) -> Said {
    Said {
        role: m.role@,
        text: if m.role@ == "system"@ && extra is Some {
            m.text() + extra->0
        } else {
            m.text()
        },
    }
}

/// True if one of the messages is a system message.
pub open spec fn has_system(messages: Seq<ChatMessage>) -> bool {
    exists|i: int| 0 <= i < messages.len() && (#[trigger] messages[i]).role@ == "system"@
}

/// The messages of the prompt: every system message also lists the tools. Where there
/// is no system message, one that lists the tools comes first.
pub open spec fn prompt_said(messages: Seq<ChatMessage>, extra: Option<Seq<char>>) -> Seq<Said> {
    let own = Seq::new(messages.len(), |i: int| prompted(messages[i], extra));
    if extra is Some && !has_system(messages) {
        seq![Said { role: "system"@, text: extra->0 }] + own
    } else {
        own
    }
}

/// Messages of a prompt say what is wanted.
pub open spec fn prompt_says(ms: Seq<PromptMessage>, said: Seq<Said>) -> bool {
    &&& ms.len() == said.len()
    &&& forall|i: int|
        0 <= i < ms.len() ==> (#[trigger] ms[i]).role@ == said[i].role && ms[i].content@
            == said[i].text
}

/// The role of a message is `system`.
pub open spec fn from_system(m: ChatMessage) -> bool {
    m.role@ == "system"@
}

/// The prompt holds the conversation: behind at most one message of its own, message by
/// message, in order, with the role that the client gave each of them and the text that it
/// has. Where there are tools, `extra` lists them: it is added to the text of every system
/// message, or is a system message of its own in front where the client sent none.
pub open spec fn holds_conversation(
    ms: Seq<PromptMessage>,
    messages: Seq<ChatMessage>,
    extra: Option<Seq<char>>,
) -> bool {
    let lead = ms.len() - messages.len();
    &&& lead == 1 || lead == 0
    &&& lead == 1 <==> extra is Some && forall|i: int|
        0 <= i < messages.len() ==> !from_system(#[trigger] messages[i])
    &&& lead == 1 ==> ms[0].role@ == "system"@ && ms[0].content@ == extra->0
    &&& forall|i: int|
        0 <= i < messages.len() ==> ms[lead + i].role@ == (#[trigger] messages[i]).role@
    &&& forall|i: int|
        0 <= i < messages.len() ==> {
            let m = #[trigger] messages[i];
            let said = match m.content {
                Some(text) => text@,
                None => Seq::empty(),
            };
            ms[lead + i].content@ == if extra is Some && from_system(m) {
                said + extra->0
            } else {
                said
            }
        }
}

/// A prompt holds the whole conversation that it is made for.
pub proof fn law_prompts_hold_the_conversation(
    ms: Seq<PromptMessage>,
    messages: Seq<ChatMessage>,
    extra: Option<Seq<char>>,
)
    requires
        prompt_says(ms, prompt_said(messages, extra)),
    ensures
        holds_conversation(ms, messages, extra),
{
    let said = prompt_said(messages, extra);
    let lead = ms.len() - messages.len();
    if has_system(messages) {
        let i = choose|i: int| 0 <= i < messages.len() && (
        #[trigger] messages[i]).role@ == "system"@;
        assert(from_system(messages[i]));
    }
    assert forall|i: int| 0 <= i < messages.len() implies ms[lead + i].role@ == (
    #[trigger] messages[i]).role@ by {
        assert(said[lead + i] == prompted(messages[i], extra));
    }
    assert forall|i: int| 0 <= i < messages.len() implies {
        let m = #[trigger] messages[i];
        let said = match m.content {
            Some(text) => text@,
            None => Seq::empty(),
        };
        ms[lead + i].content@ == if extra is Some && from_system(m) {
            said + extra->0
        } else {
            said
        }
    } by {
        assert(said[lead + i] == prompted(messages[i], extra));
    }
}

pub(crate) proof fn lemma_joined_holds(
    items: Seq<Seq<char>>,
    separator: Seq<char>,
    i: int,
) -> (at: int)
    requires
        0 <= i < items.len(),
    ensures
        0 <= at,
        at + items[i].len() <= joined(items, separator).len(),
        joined(items, separator).subrange(at, at + items[i].len() as int) == items[i],
        i == 0 ==> at == 0,
        i > 0 ==> at == joined(items.take(i), separator).len() + separator.len(),
        i > 0 ==> joined(items, separator).subrange(at - separator.len(), at) == separator,
    decreases items.len(),
{
    let all = joined(items, separator);
    let n = items.len();
    if n == 1 {
        assert(all.subrange(0, all.len() as int) =~= all);
        0
    } else {
        let front = items.drop_last();
        let before = joined(front, separator);
        if i < n - 1 {
            let at = lemma_joined_holds(front, separator, i);
            assert(all.subrange(at, at + items[i].len() as int) =~= before.subrange(
                at,
                at + items[i].len() as int,
            ));
            if i > 0 {
                assert(front.take(i) =~= items.take(i));
                assert(all.subrange(at - separator.len(), at) =~= before.subrange(
                    at - separator.len(),
                    at,
                ));
            }
            at
        } else {
            let at = before.len() + separator.len() as int;
            assert(items.take(i) =~= front);
            assert(all.subrange(at, at + items[i].len() as int) =~= items[i]);
            assert(all.subrange(at - separator.len(), at) =~= separator);
            at
        }
    }
}

/// The list of tools holds every tool, in order, one behind the other, with a comma and a
/// line break between neighbours and between the opening text and the closing text.
pub proof fn law_every_tool_is_listed(tools: Seq<Seq<char>>, i: int) -> (at: int)
    requires
        0 <= i < tools.len(),
    ensures
        0 <= at,
        at + tools[i].len() <= tools_prompt(tools).len(),
        tools_prompt(tools).subrange(at, at + tools[i].len() as int) == tools[i],
        i > 0 ==> at >= 2 && tools_prompt(tools).subrange(at - 2, at) == seq![',', '\n'],
{
    let all = tools_prompt(tools);
    let list = joined(tools, ",\n"@);
    let inner = lemma_joined_holds(tools, ",\n"@, i);
    let head = "\nYou have access to the following tools/functions:\n```json\n[\n"@.len() as int;
    let at = head + inner;
    assert(all.subrange(at, at + tools[i].len() as int) =~= list.subrange(
        inner,
        inner + tools[i].len() as int,
    ));
    reveal_strlit(",\n");
    assert(",\n"@ =~= seq![',', '\n']);
    if i > 0 {
        assert(all.subrange(at - 2, at) =~= list.subrange(inner - 2, inner));
    }
    at
}

/// The messages of the prompt for a conversation. `tools` are the tools that the model
/// may call, each as JSON.
pub fn chat_prompt(messages: &[ChatMessage], tools: Option<&[String]>) -> (r: Result<
    Vec<PromptMessage>,
    ApiError,
>)
    ensures
        match r {
            Ok(ms) => messages@.len() > 0 && prompt_says(
                ms@,
                prompt_said(messages@, tools_part(tools)),
            ) && holds_conversation(ms@, messages@, tools_part(tools)),
            Err(e) => {
                &&& messages@.len() == 0
                &&& e.status == BAD_REQUEST
                &&& e.message@ == "messages must not be empty"@
            },
        },
{
    if messages.len() == 0 {
        return Err(
            ApiError { status: BAD_REQUEST, message: "messages must not be empty".to_string() },
        );
    }
    let extra: Option<String> = match tools {
        Some(t) => if t.len() > 0 {
            Some(format_tools_system_prompt(t))
        } else {
            None
        },
        None => None,
    };
    let ghost part = tools_part(tools);
    let ghost own = Seq::new(messages@.len(), |i: int| prompted(messages@[i], part));
    let listed = any_system(messages);
    let mut out: Vec<PromptMessage> = Vec::new();
    match &extra {
        Some(p) => {
            if !listed {
                out.push(PromptMessage { role: "system".to_string(), content: p.clone() });
            }
        },
        None => {},
    }
    let ghost first = out@;
    let ghost lead = if part is Some && !has_system(messages@) {
        seq![Said { role: "system"@, text: part->0 }]
    } else {
        Seq::empty()
    };
    assert(prompt_says(first, lead));
    let mut i: usize = 0;
    while i < messages.len()
        invariant
            i <= messages@.len(),
            prompt_says(first, lead),
            extra is Some <==> part is Some,
            extra is Some ==> extra->0@ == part->0,
            own == Seq::new(messages@.len(), |k: int| prompted(messages@[k], part)),
            out@.len() == first.len() + i,
            out@.take(first.len() as int) == first,
            forall|k: int|
                first.len() <= k < out@.len() ==> (#[trigger] out@[k]).role@ == own[k
                    - first.len()].role && out@[k].content@ == own[k - first.len()].text,
        decreases messages@.len() - i,
    {
        let m = &messages[i];
        let mut content = m.content_str().to_string();
        if same_text(m.role.as_str(), "system") {
            match &extra {
                Some(p) => {
                    content.append(p.as_str());
                },
                None => {},
            }
        }
        let ghost before = out@;
        out.push(PromptMessage { role: m.role.clone(), content });
        proof {
            assert(out@.take(first.len() as int) =~= before.take(first.len() as int));
        }
        i = i + 1;
    }
    proof {
        assert forall|k: int| 0 <= k < first.len() implies out@[k] == first[k] by {
            assert(out@.take(first.len() as int)[k] == first[k]);
        }
        let want = prompt_said(messages@, part);
        assert(want =~= lead + own);
        assert forall|k: int| 0 <= k < out@.len() implies (#[trigger] out@[k]).role@
            == want[k].role && out@[k].content@ == want[k].text by {
            if k < first.len() {
                assert(first[k].role@ == lead[k].role && first[k].content@ == lead[k].text);
            } else {
                assert(want[k] == own[k - first.len()]);
            }
        }
        assert(prompt_says(out@, want));
        law_prompts_hold_the_conversation(out@, messages@, part);
    }
    Ok(out)
}

fn any_system(messages: &[ChatMessage]) -> (b: bool)
    ensures
        b == has_system(messages@),
{
    let mut i: usize = 0;
    while i < messages.len()
        invariant
            i <= messages@.len(),
            forall|k: int| 0 <= k < i ==> (#[trigger] messages@[k]).role@ != "system"@,
        decreases messages@.len() - i,
    {
        if same_text(messages[i].role.as_str(), "system") {
            return true;
        }
        i = i + 1;
    }
    false
}

/// The conversation of a responses request; an unusable input is refused.
pub fn responses_messages(req: &ResponsesRequest) -> (r: Result<Vec<ChatMessage>, ApiError>)
    ensures
        match (
            r,
            conversation(
                req.input,
                match req.instructions {
                    Some(s) => Some(s@),
                    None => None,
                },
            ),
        ) {
            (Ok(ms), Ok(said)) => all_plainly(ms@, said),
            (Err(e), Err(why)) => e.status == BAD_REQUEST && e.message@ == why,
            _ => false,
        },
{
    let instructions = match &req.instructions {
        Some(s) => Some(s.as_str()),
        None => None,
    };
    match req.input.to_messages(instructions) {
        Ok(ms) => Ok(ms),
        Err(message) => Err(ApiError { status: BAD_REQUEST, message }),
    }
}

/// The model that is served is accepted under its name, under three names that stand for
/// whatever is served, and under none; under any other name it is not.
pub proof fn law_models_are_asked_for_by_name(requested: Seq<char>, loaded: Seq<char>)
    ensures
        model_accepted(loaded, loaded),
        model_accepted("default"@, loaded),
        model_accepted("auto"@, loaded),
        model_accepted("glint"@, loaded),
        model_accepted(Seq::empty(), loaded),
        requested.len() > 0 && requested != loaded && requested != "default"@ && requested
            != "auto"@ && requested != "glint"@ ==> !model_accepted(requested, loaded),
{
}

/// Joining texts puts the separator between neighbours and nowhere else.
pub proof fn law_separators_stand_between_texts(
    items: Seq<Seq<char>>,
    item: Seq<char>,
    separator: Seq<char>,
)
    ensures
        joined(Seq::empty(), separator) == Seq::<char>::empty(),
        joined(seq![item], separator) == item,
        items.len() > 0 ==> joined(items.push(item), separator) == joined(items, separator)
            + separator + item,
{
    assert(items.push(item).drop_last() =~= items);
}

} // verus!
