//! Requests and responses of the HTTP interface.
//!
//! JSON values that pass through, such as schemas and parameters, are kept as their
//! text. Sampling knobs are 32-bit floating-point numbers, kept as bit patterns.
use vstd::prelude::*;

use crate::text::{blank, is_blank, same_text};

verus! {

// ── Output format ────────────────────────────────────────────────────────────

/// The output format that a client asks for.
#[derive(Debug)]
pub struct ResponseFormat {
    /// `text`, `json_object`, `json_schema` or `grammar`.
    pub format_type: String,
    pub json_schema: Option<JsonSchemaResponseFormat>,
    pub grammar: Option<String>,
}

#[derive(Debug)]
pub struct JsonSchemaResponseFormat {
    pub name: String,
    pub description: Option<String>,
    /// The schema, as JSON text.
    pub schema: Option<String>,
    pub strict: Option<bool>,
}

impl ResponseFormat {
    /// True if the output must be a JSON object.
    pub fn is_json_object(&self) -> (b: bool)
        ensures
            b == (self.format_type@ == "json_object"@),
    {
        same_text(self.format_type.as_str(), "json_object")
    }

    /// True if the output must match a JSON schema.
    pub fn is_json_schema(&self) -> (b: bool)
        ensures
            b == (self.format_type@ == "json_schema"@),
    {
        same_text(self.format_type.as_str(), "json_schema")
    }

    /// True if the output must follow a grammar.
    pub fn is_grammar(&self) -> (b: bool)
        ensures
            b == (self.format_type@ == "grammar"@),
    {
        same_text(self.format_type.as_str(), "grammar")
    }
}

// ── Tools ────────────────────────────────────────────────────────────────────

/// A tool that the model may call.
#[derive(Debug)]
pub struct Tool {
    pub tool_type: String,
    pub function: ToolFunction,
}

#[derive(Debug)]
pub struct ToolFunction {
    pub name: String,
    pub description: Option<String>,
    /// The schema of the parameters, as JSON text.
    pub parameters: Option<String>,
    pub strict: Option<bool>,
}

/// Which tool the model is to call.
#[derive(Debug)]
pub enum ToolChoice {
    /// `none`, `auto` or `required`.
    Mode(String),
    /// That one.
    Function { tool_type: String, function: ToolChoiceFunction },
}

#[derive(Debug)]
pub struct ToolChoiceFunction {
    pub name: String,
}

#[derive(Debug)]
pub struct ToolCall {
    pub id: String,
    pub tool_type: String,
    pub function: FunctionCall,
}

#[derive(Debug)]
pub struct FunctionCall {
    pub name: String,
    pub arguments: String,
}

#[derive(Debug)]
pub struct ToolCallDelta {
    pub index: usize,
    pub id: Option<String>,
    pub tool_type: Option<String>,
    pub function: Option<FunctionCallDelta>,
}

#[derive(Debug)]
pub struct FunctionCallDelta {
    pub name: Option<String>,
    pub arguments: Option<String>,
}

// ── Requests ─────────────────────────────────────────────────────────────────

/// The sampling knobs of a request. What is missing takes its default.
#[derive(Clone, Copy, Debug, PartialEq, Eq, Structural)]
pub struct SamplingParams {
    pub temperature: Option<u32>,
    pub top_p: Option<u32>,
    pub top_k: Option<usize>,
    pub repeat_penalty: Option<u32>,
    pub seed: Option<u64>,
}

/// Body of `POST /v1/completions`.
#[derive(Debug)]
pub struct CompletionRequest {
    pub model: String,
    pub prompt: String,
    pub max_tokens: Option<usize>,
    pub sampling: SamplingParams,
    pub stream: Option<bool>,
    pub response_format: Option<ResponseFormat>,
}

/// One message of a conversation.
#[derive(Debug)]
pub struct ChatMessage {
    /// `system`, `user`, `assistant` or `tool`.
    pub role: String,
    pub content: Option<String>,
    pub name: Option<String>,
    pub tool_calls: Option<Vec<ToolCall>>,
    pub tool_call_id: Option<String>,
}

impl ChatMessage {
    /// The text of the message, empty where it has none.
    pub open spec fn text(&self) -> Seq<char> {
        match self.content {
            Some(c) => c@,
            None => Seq::empty(),
        }
    }

    /// The text of the message, empty where it has none.
    pub fn content_str(&self) -> (s: &str)
        ensures
            s@ == self.text(),
    {
        match &self.content {
            Some(c) => c.as_str(),
            None => {
                proof {
                    reveal_strlit("");
                    assert(""@ =~= Seq::empty());
                }
                ""
            },
        }
    }
}

/// Body of `POST /v1/chat/completions`.
#[derive(Debug)]
pub struct ChatCompletionRequest {
    pub model: String,
    pub messages: Vec<ChatMessage>,
    pub max_tokens: Option<usize>,
    pub sampling: SamplingParams,
    pub stream: Option<bool>,
    pub response_format: Option<ResponseFormat>,
    pub tools: Option<Vec<Tool>>,
    pub tool_choice: Option<ToolChoice>,
}

/// Body of `POST /v1/responses`.
#[derive(Debug)]
pub struct ResponsesRequest {
    pub model: String,
    pub input: ResponseInput,
    pub instructions: Option<String>,
    pub max_output_tokens: Option<usize>,
    pub sampling: SamplingParams,
    pub stream: Option<bool>,
}

/// The input of a responses request: a text or messages.
#[derive(Debug)]
pub enum ResponseInput {
    Text(String),
    Messages(Vec<ResponseInputMessage>),
}

#[derive(Debug)]
pub struct ResponseInputMessage {
    pub role: String,
    pub content: ResponseInputContent,
}

#[derive(Debug)]
pub enum ResponseInputContent {
    Text(String),
    Parts(Vec<ResponseInputContentPart>),
}

#[derive(Debug)]
pub struct ResponseInputContentPart {
    pub part_type: String,
    pub text: Option<String>,
}

/// The text of one content part, or why it is refused.
pub open spec fn part_text(p: ResponseInputContentPart) -> Result<Seq<char>, Seq<char>> {
    if p.part_type@ == "input_text"@ || p.part_type@ == "text"@ {
        match p.text {
            Some(t) => Ok(t@),
            None => Err("text content part is missing `text`"@),
        }
    } else {
        Err(
            "unsupported responses input content type '"@ + p.part_type@
                + "'; only text is supported"@,
        )
    }
}

/// The text of some content parts: theirs in a row. The first part that is refused
/// decides.
pub open spec fn parts_text(parts: Seq<ResponseInputContentPart>) -> Result<Seq<char>, Seq<char>>
    decreases parts.len(),
{
    if parts.len() == 0 {
        Ok(Seq::empty())
    } else {
        match parts_text(parts.drop_last()) {
            Err(e) => Err(e),
            Ok(t) => match part_text(parts.last()) {
                Err(e) => Err(e),
                Ok(p) => Ok(t + p),
            },
        }
    }
}

/// A refused part refuses every longer run of parts that starts the same way.
proof fn lemma_parts_refused(parts: Seq<ResponseInputContentPart>, k: int)
    requires
        0 <= k <= parts.len(),
        parts_text(parts.take(k)) is Err,
    ensures
        parts_text(parts) == parts_text(parts.take(k)),
    decreases parts.len() - k,
{
    if k < parts.len() {
        assert(parts.take(k + 1).drop_last() =~= parts.take(k));
        lemma_parts_refused(parts, k + 1);
    } else {
        assert(parts.take(k) =~= parts);
    }
}

/// The text of parts is the text of each of them, in order: two runs of parts say together
/// what they say one after the other, and a refusal of the first comes first.
pub proof fn law_parts_are_read_in_order(
    a: Seq<ResponseInputContentPart>,
    b: Seq<ResponseInputContentPart>,
)
    ensures
        parts_text(a + b) == match (parts_text(a), parts_text(b)) {
            (Err(e), _) => Err(e),
            (Ok(_), Err(e)) => Err(e),
            (Ok(s), Ok(t)) => Ok::<Seq<char>, Seq<char>>(s + t),
        },
    decreases b.len(),
{
    if b.len() == 0 {
        assert(a + b =~= a);
        if let Ok(s) = parts_text(a) {
            assert(s + Seq::<char>::empty() =~= s);
        }
    } else {
        law_parts_are_read_in_order(a, b.drop_last());
        assert((a + b).drop_last() =~= a + b.drop_last());
        assert((a + b).last() == b.last());
        if let (Ok(s), Ok(t), Ok(p)) = (
            parts_text(a),
            parts_text(b.drop_last()),
            part_text(b.last()),
        ) {
            assert(s + t + p =~= s + (t + p));
        }
    }
}

/// One part says its own text. It is refused if it has none, or is no text.
pub proof fn law_a_part_says_its_text(p: ResponseInputContentPart)
    ensures
        ({
            let is_text = p.part_type@ == "input_text"@ || p.part_type@ == "text"@;
            &&& parts_text(seq![p]) is Ok <==> is_text && p.text is Some
            &&& parts_text(seq![p]) matches Ok(t) ==> t == p.text->0@
        }),
{
    reveal_with_fuel(parts_text, 2);
    let one = seq![p];
    assert(one.drop_last() =~= Seq::empty());
    if let Ok(t) = part_text(p) {
        assert(Seq::<char>::empty() + t =~= t);
    }
}

/// The text of a message's content, or why it is refused.
pub open spec fn content_text(c: ResponseInputContent) -> Result<Seq<char>, Seq<char>> {
    match c {
        ResponseInputContent::Text(t) => Ok(t@),
        ResponseInputContent::Parts(parts) => parts_text(parts@),
    }
}

/// A result carries the text, or the refusal, that is wanted.
pub open spec fn says(r: Result<String, String>, want: Result<Seq<char>, Seq<char>>) -> bool {
    match (r, want) {
        (Ok(s), Ok(t)) => s@ == t,
        (Err(s), Err(t)) => s@ == t,
        _ => false,
    }
}

fn refuse_part(part_type: &str) -> (e: String)
    ensures
        e@ == "unsupported responses input content type '"@ + part_type@
            + "'; only text is supported"@,
{
    let mut s = String::new();
    s.append("unsupported responses input content type '");
    s.append(part_type);
    s.append("'; only text is supported");
    s
}

impl ResponseInputContent {
    /// The text of the content. Only text parts are supported.
    pub fn as_text(&self) -> (r: Result<String, String>)
        ensures
            says(r, content_text(*self)),
    {
        match self {
            ResponseInputContent::Text(t) => Ok(t.clone()),
            ResponseInputContent::Parts(parts) => {
                let mut text = String::new();
                let mut i: usize = 0;
                assert(parts@.take(0) =~= Seq::empty());
                while i < parts.len()
                    invariant
                        i <= parts@.len(),
                        *self == ResponseInputContent::Parts(*parts),
                        parts_text(parts@.take(i as int)) == Ok::<Seq<char>, Seq<char>>(text@),
                    decreases parts@.len() - i,
                {
                    let part = &parts[i];
                    proof {
                        assert(parts@.take(i + 1).drop_last() =~= parts@.take(i as int));
                        if part_text(parts@[i as int]) is Err {
                            lemma_parts_refused(parts@, i + 1);
                        }
                    }
                    if same_text(part.part_type.as_str(), "input_text") || same_text(
                        part.part_type.as_str(),
                        "text",
                    ) {
                        match &part.text {
                            Some(t) => {
                                text.append(t.as_str());
                            },
                            None => {
                                return Err("text content part is missing `text`".to_string());
                            },
                        }
                    } else {
                        return Err(refuse_part(part.part_type.as_str()));
                    }
                    i = i + 1;
                }
                assert(parts@.take(i as int) =~= parts@);
                Ok(text)
            },
        }
    }
}

/// A role and a text.
pub struct Said {
    pub role: Seq<char>,
    pub text: Seq<char>,
}

/// `m` says `said`, and carries nothing else.
pub open spec fn plainly(m: ChatMessage, said: Said) -> bool {
    &&& m.role@ == said.role
    &&& m.content matches Some(c) && c@ == said.text
    &&& m.name is None
    &&& m.tool_calls is None
    &&& m.tool_call_id is None
}

/// The messages of some input, or why one of them is refused.
pub open spec fn items_said(items: Seq<ResponseInputMessage>) -> Result<Seq<Said>, Seq<char>>
    decreases items.len(),
{
    if items.len() == 0 {
        Ok(Seq::empty())
    } else {
        match items_said(items.drop_last()) {
            Err(e) => Err(e),
            Ok(said) => match content_text(items.last().content) {
                Err(e) => Err(e),
                Ok(text) => Ok(said.push(Said { role: items.last().role@, text })),
            },
        }
    }
}

proof fn lemma_items_refused(items: Seq<ResponseInputMessage>, k: int)
    requires
        0 <= k <= items.len(),
        items_said(items.take(k)) is Err,
    ensures
        items_said(items) == items_said(items.take(k)),
    decreases items.len() - k,
{
    if k < items.len() {
        assert(items.take(k + 1).drop_last() =~= items.take(k));
        lemma_items_refused(items, k + 1);
    } else {
        assert(items.take(k) =~= items);
    }
}

/// The characters of an optional text.
pub open spec fn text_in(s: Option<&str>) -> Option<Seq<char>> {
    match s {
        Some(s) => Some(s@),
        None => None,
    }
}

/// The instructions as a system message, where there are any.
pub open spec fn instructions_said(instructions: Option<Seq<char>>) -> Seq<Said> {
    if instructions is Some && !blank(instructions->0) {
        seq![Said { role: "system"@, text: instructions->0 }]
    } else {
        Seq::empty()
    }
}

/// The conversation that an input stands for: the instructions first, then the
/// input. An empty input is refused.
pub open spec fn conversation(
    input: ResponseInput,
    instructions: Option<Seq<char>>,
) -> Result<Seq<Said>, Seq<char>> {
    let first = instructions_said(instructions);
    match input {
        ResponseInput::Text(t) => if blank(t@) {
            Err("input must not be empty"@)
        } else {
            Ok(first.push(Said { role: "user"@, text: t@ }))
        },
        ResponseInput::Messages(items) => if items@.len() == 0 {
            Err("input must not be empty"@)
        } else {
            match items_said(items@) {
                Err(e) => Err(e),
                Ok(said) => Ok(first + said),
            }
        },
    }
}

/// A conversation keeps what the client sent: behind the instructions, which are a system
/// message of their own where they are not blank, every message in order, with its role and
/// the text of its content; or the one text, said by the user.
pub proof fn law_conversations_keep_roles_and_order(
    input: ResponseInput,
    instructions: Option<Seq<char>>,
    said: Seq<Said>,
)
    requires
        conversation(input, instructions) == Ok::<Seq<Said>, Seq<char>>(said),
    ensures
        ({
            let lead: int = if instructions is Some && !blank(instructions->0) {
                1
            } else {
                0
            };
            &&& lead == 1 ==> said[0].role == "system"@ && said[0].text == instructions->0
            &&& match input {
                ResponseInput::Text(t) => said.len() == lead + 1 && said[lead].role == "user"@
                    && said[lead].text == t@,
                ResponseInput::Messages(items) => said.len() == lead + items@.len() && forall|
                    i: int,
                |
                    0 <= i < items@.len() ==> said[lead + i].role == (#[trigger] items@[i]).role@
                        && content_text(items@[i].content) == Ok::<Seq<char>, Seq<char>>(
                        said[lead + i].text,
                    ),
            }
        }),
{
    if let ResponseInput::Messages(items) = input {
        let own = items_said(items@)->Ok_0;
        assert forall|i: int| 0 <= i < items@.len() implies own[i].role == (
        #[trigger] items@[i]).role@ && content_text(items@[i].content) == Ok::<
            Seq<char>,
            Seq<char>,
        >(own[i].text) by {
            lemma_item_said(items@, i);
        }
        lemma_items_len(items@);
    }
}

proof fn lemma_items_len(items: Seq<ResponseInputMessage>)
    requires
        items_said(items) is Ok,
    ensures
        items_said(items)->Ok_0.len() == items.len(),
    decreases items.len(),
{
    if items.len() > 0 {
        lemma_items_len(items.drop_last());
    }
}

proof fn lemma_item_said(items: Seq<ResponseInputMessage>, i: int)
    requires
        items_said(items) is Ok,
        0 <= i < items.len(),
    ensures
        ({
            let own = items_said(items)->Ok_0;
            &&& own[i].role == items[i].role@
            &&& content_text(items[i].content) == Ok::<Seq<char>, Seq<char>>(own[i].text)
        }),
    decreases items.len(),
{
    lemma_items_len(items);
    let front = items.drop_last();
    lemma_items_len(front);
    if i < items.len() - 1 {
        lemma_item_said(front, i);
    }
}

/// Messages say what a conversation says.
pub open spec fn all_plainly(ms: Seq<ChatMessage>, said: Seq<Said>) -> bool {
    &&& ms.len() == said.len()
    &&& forall|i: int| 0 <= i < ms.len() ==> plainly(#[trigger] ms[i], said[i])
}

fn plain_message(role: &str, text: &str) -> (m: ChatMessage)
    ensures
        plainly(m, (Said { role: role@, text: text@ })),
{
    ChatMessage {
        role: role.to_string(),
        content: Some(text.to_string()),
        name: None,
        tool_calls: None,
        tool_call_id: None,
    }
}

impl ResponseInput {
    /// The conversation that the input stands for.
    pub fn to_messages(&self, instructions: Option<&str>) -> (r: Result<Vec<ChatMessage>, String>)
        ensures
            match (r, conversation(*self, text_in(instructions))) {
                (Ok(ms), Ok(said)) => all_plainly(ms@, said),
                (Err(e), Err(want)) => e@ == want,
                _ => false,
            },
    {
        let mut messages: Vec<ChatMessage> = Vec::new();
        let ghost first = instructions_said(text_in(instructions));
        match instructions {
            Some(text) => {
                if !is_blank(text) {
                    messages.push(plain_message("system", text));
                }
            },
            None => {},
        }
        assert(all_plainly(messages@, first));
        match self {
            ResponseInput::Text(text) => {
                if is_blank(text.as_str()) {
                    return Err("input must not be empty".to_string());
                }
                messages.push(plain_message("user", text.as_str()));
                Ok(messages)
            },
            ResponseInput::Messages(items) => {
                if items.len() == 0 {
                    return Err("input must not be empty".to_string());
                }
                let ghost mut said: Seq<Said> = Seq::empty();
                assert(items@.take(0) =~= Seq::empty());
                assert(first + said =~= first);
                let mut i: usize = 0;
                while i < items.len()
                    invariant
                        0 < items@.len(),
                        i <= items@.len(),
                        *self == ResponseInput::Messages(*items),
                        items_said(items@.take(i as int)) == Ok::<Seq<Said>, Seq<char>>(said),
                        all_plainly(messages@, first + said),
                        first == instructions_said(text_in(instructions)),
                    decreases items@.len() - i,
                {
                    let item = &items[i];
                    proof {
                        assert(items@.take(i + 1).drop_last() =~= items@.take(i as int));
                        if content_text(item.content) is Err {
                            lemma_items_refused(items@, i + 1);
                        }
                    }
                    let text = match item.content.as_text() {
                        Ok(text) => text,
                        Err(e) => {
                            return Err(e);
                        },
                    };
                    let ghost next = Said { role: item.role@, text: text@ };
                    messages.push(plain_message(item.role.as_str(), text.as_str()));
                    proof {
                        assert(first + said.push(next) =~= (first + said).push(next));
                        said = said.push(next);
                    }
                    i = i + 1;
                }
                assert(items@.take(i as int) =~= items@);
                Ok(messages)
            },
        }
    }
}

// ── Responses ────────────────────────────────────────────────────────────────

/// Response of `POST /v1/completions`.
#[derive(Debug)]
pub struct CompletionResponse {
    pub id: String,
    pub object: &'static str,
    pub created: u64,
    pub model: String,
    pub choices: Vec<CompletionChoice>,
    pub usage: UsageInfo,
}

#[derive(Debug)]
pub struct CompletionChoice {
    pub text: String,
    pub index: usize,
    pub finish_reason: &'static str,
}

#[derive(Clone, Copy, Debug, PartialEq, Eq, Structural)]
pub struct UsageInfo {
    pub prompt_tokens: usize,
    pub completion_tokens: usize,
    pub total_tokens: usize,
}

/// Response of `POST /v1/chat/completions`.
#[derive(Debug)]
pub struct ChatCompletionResponse {
    pub id: String,
    pub object: &'static str,
    pub created: u64,
    pub model: String,
    pub choices: Vec<ChatChoice>,
    pub usage: UsageInfo,
}

#[derive(Debug)]
pub struct ChatChoice {
    pub index: usize,
    pub message: ChatMessageOut,
    pub finish_reason: &'static str,
}

#[derive(Debug)]
pub struct ChatMessageOut {
    pub role: &'static str,
    pub content: Option<String>,
    pub tool_calls: Option<Vec<ToolCall>>,
}

/// Response of `POST /v1/responses`.
#[derive(Debug)]
pub struct ResponsesResponse {
    pub id: String,
    pub object: &'static str,
    pub created_at: u64,
    pub status: &'static str,
    pub model: String,
    pub output: Vec<ResponseOutputItem>,
    pub output_text: String,
    pub usage: ResponsesUsage,
}

#[derive(Debug)]
pub struct ResponseOutputItem {
    pub id: String,
    pub item_type: &'static str,
    pub status: &'static str,
    pub role: &'static str,
    pub content: Vec<ResponseOutputContent>,
}

#[derive(Debug)]
pub struct ResponseOutputContent {
    pub content_type: &'static str,
    pub text: String,
    pub annotations: Vec<ResponseOutputAnnotation>,
}

#[derive(Debug)]
pub struct ResponseOutputAnnotation {}

#[derive(Clone, Copy, Debug, PartialEq, Eq, Structural)]
pub struct ResponsesUsage {
    pub input_tokens: usize,
    pub output_tokens: usize,
    pub total_tokens: usize,
}

// ── Streaming ────────────────────────────────────────────────────────────────

/// One piece of a streamed completion.
#[derive(Debug)]
pub struct CompletionChunk {
    pub id: String,
    pub object: &'static str,
    pub created: u64,
    pub model: String,
    pub choices: Vec<ChunkChoice>,
}

#[derive(Debug)]
pub struct ChunkChoice {
    pub text: String,
    pub index: usize,
    /// Set on the last piece only.
    pub finish_reason: Option<&'static str>,
}

/// One piece of a streamed chat completion.
#[derive(Debug)]
pub struct ChatChunk {
    pub id: String,
    pub object: &'static str,
    pub created: u64,
    pub model: String,
    pub choices: Vec<ChatChunkChoice>,
}

#[derive(Debug)]
pub struct ChatChunkChoice {
    pub index: usize,
    pub delta: ChatDelta,
    pub finish_reason: Option<&'static str>,
}

#[derive(Debug)]
pub struct ChatDelta {
    pub role: Option<&'static str>,
    pub content: Option<String>,
    pub tool_calls: Option<Vec<ToolCallDelta>>,
}

// ── Models ───────────────────────────────────────────────────────────────────

/// Response of `GET /v1/models`.
#[derive(Debug)]
pub struct ModelsResponse {
    pub object: &'static str,
    pub data: Vec<ModelInfo>,
}

#[derive(Debug)]
pub struct ModelInfo {
    pub id: String,
    pub object: &'static str,
    pub created: u64,
    pub owned_by: &'static str,
}

// ── Embeddings ───────────────────────────────────────────────────────────────

/// What is to be embedded: one text or several.
#[derive(Debug)]
pub enum EmbeddingInput {
    Single(String),
    Batch(Vec<String>),
}

impl EmbeddingInput {
    /// The texts.
    pub open spec fn texts(&self) -> Seq<Seq<char>> {
        match self {
            EmbeddingInput::Single(s) => seq![s@],
            EmbeddingInput::Batch(v) => Seq::new(v@.len(), |i: int| v@[i]@),
        }
    }

    /// The texts, in order.
    pub fn as_strings(&self) -> (v: Vec<&str>)
        ensures
            v@.len() == self.texts().len(),
            forall|i: int| 0 <= i < v@.len() ==> (#[trigger] v@[i])@ == self.texts()[i],
    {
        let mut out: Vec<&str> = Vec::new();
        match self {
            EmbeddingInput::Single(s) => {
                out.push(s.as_str());
            },
            EmbeddingInput::Batch(v) => {
                let mut i: usize = 0;
                while i < v.len()
                    invariant
                        i <= v@.len(),
                        *self == EmbeddingInput::Batch(*v),
                        out@.len() == i,
                        forall|k: int| 0 <= k < i ==> (#[trigger] out@[k])@ == self.texts()[k],
                    decreases v@.len() - i,
                {
                    out.push(v[i].as_str());
                    i = i + 1;
                }
            },
        }
        out
    }
}

/// Body of `POST /v1/embeddings`.
#[derive(Debug)]
pub struct EmbeddingRequest {
    pub model: String,
    pub input: EmbeddingInput,
}

// ── Errors ───────────────────────────────────────────────────────────────────

/// Body of a refused request.
#[derive(Debug)]
pub struct ErrorResponse {
    pub error: ErrorDetail,
}

#[derive(Debug)]
pub struct ErrorDetail {
    pub message: String,
    pub error_type: &'static str,
    pub code: u16,
}

} // verus!
