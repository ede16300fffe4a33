//! Constraints on the output, and the calls that a model makes.
use vstd::prelude::*;

use crate::server::ids::{gen_id_with_prefix, id_text};
use crate::server::prepare::{joined, lemma_joined_holds, ApiError, BAD_REQUEST};
use crate::server::types::{
    ChatCompletionRequest, FunctionCall, ResponseFormat, Tool, ToolCall, ToolChoice,
};
use crate::text::{chars_of, same_text, string_of, trim, trimmed};

verus! {

/// The schema of a call of one tool: an object with the tool's name and arguments
/// that match the tool's parameters.
#[derive(Debug)]
pub struct CallSchema {
    pub name: String,
    /// The schema of the arguments, as JSON text.
    pub parameters: String,
}

/// A schema that the output must match.
#[derive(Debug)]
pub enum SchemaSpec {
    /// The client's own, as JSON text.
    Given(String),
    /// A call of one tool.
    Call(CallSchema),
    /// A call of any of these tools.
    AnyCall(Vec<CallSchema>),
}

/// What the output must look like.
#[derive(Debug)]
pub enum ConstraintSpec {
    JsonObject,
    JsonSchema(SchemaSpec),
    Grammar(String),
}

/// A call schema by its texts.
pub struct CallShape {
    pub name: Seq<char>,
    pub parameters: Seq<char>,
}

/// A constraint by its texts.
pub enum Shape {
    JsonObject,
    Given(Seq<char>),
    Call(CallShape),
    AnyCall(Seq<CallShape>),
    Grammar(Seq<char>),
}

/// The texts of a call schema.
pub open spec fn call_shape(c: CallSchema) -> CallShape {
    CallShape { name: c.name@, parameters: c.parameters@ }
}

/// The texts of a constraint.
pub open spec fn shape(c: ConstraintSpec) -> Shape {
    match c {
        ConstraintSpec::JsonObject => Shape::JsonObject,
        ConstraintSpec::JsonSchema(SchemaSpec::Given(s)) => Shape::Given(s@),
        ConstraintSpec::JsonSchema(SchemaSpec::Call(c)) => Shape::Call(call_shape(c)),
        ConstraintSpec::JsonSchema(SchemaSpec::AnyCall(v)) => Shape::AnyCall(
            Seq::new(v@.len(), |i: int| call_shape(v@[i])),
        ),
        ConstraintSpec::Grammar(g) => Shape::Grammar(g@),
    }
}

/// The texts of a constraint, if there is one.
pub open spec fn shape_of(c: Option<ConstraintSpec>) -> Option<Shape> {
    match c {
        Some(c) => Some(shape(c)),
        None => None,
    }
}

// ── Output format ────────────────────────────────────────────────────────────

/// The constraint that an output format asks for. A format without the schema or the
/// grammar that it needs, and any other format, asks for nothing.
pub open spec fn format_shape(rf: ResponseFormat) -> Option<Shape> {
    if rf.format_type@ == "json_object"@ {
        Some(Shape::JsonObject)
    } else if rf.format_type@ == "json_schema"@ {
        match rf.json_schema {
            Some(js) => match js.schema {
                Some(s) => Some(Shape::Given(s@)),
                None => None,
            },
            None => None,
        }
    } else if rf.format_type@ == "grammar"@ {
        match rf.grammar {
            Some(g) => Some(Shape::Grammar(g@)),
            None => None,
        }
    } else {
        None
    }
}

/// The constraint that a request's output format asks for.
pub fn resolve_constraint(response_format: Option<&ResponseFormat>) -> (c: Option<ConstraintSpec>)
    ensures
        shape_of(c) == match response_format {
            Some(rf) => format_shape(*rf),
            None => None,
        },
{
    proof {
        reveal_strlit("json_object");
        reveal_strlit("json_schema");
        reveal_strlit("grammar");
    }
    match response_format {
        Some(rf) => {
            if rf.is_json_object() {
                Some(ConstraintSpec::JsonObject)
            } else if rf.is_json_schema() {
                match &rf.json_schema {
                    Some(js) => match &js.schema {
                        Some(s) => Some(ConstraintSpec::JsonSchema(SchemaSpec::Given(s.clone()))),
                        None => None,
                    },
                    None => None,
                }
            } else if rf.is_grammar() {
                match &rf.grammar {
                    Some(g) => Some(ConstraintSpec::Grammar(g.clone())),
                    None => None,
                }
            } else {
                None
            }
        },
        None => None,
    }
}

// ── Tools ────────────────────────────────────────────────────────────────────

/// The first tool of that name.
pub open spec fn find_tool(tools: Seq<Tool>, name: Seq<char>) -> Option<Tool>
    decreases tools.len(),
{
    if tools.len() == 0 {
        None
    } else if tools[0].function.name@ == name {
        Some(tools[0])
    } else {
        find_tool(tools.skip(1), name)
    }
}

/// The schema of a tool's arguments; any object where the tool does not say.
pub open spec fn parameters_of(t: Tool) -> Seq<char> {
    match t.function.parameters {
        Some(p) => p@,
        None => "{\"type\":\"object\"}"@,
    }
}

/// The schema of a call of `t`.
pub open spec fn tool_shape(t: Tool) -> CallShape {
    CallShape { name: t.function.name@, parameters: parameters_of(t) }
}

/// The constraint that the choice of a tool asks for: a call of the tool that is
/// named, or of any tool where one is required.
pub open spec fn choice_shape(tools: Seq<Tool>, choice: Option<&ToolChoice>) -> Option<Shape> {
    match choice {
        Some(ToolChoice::Function { tool_type: _, function }) => match find_tool(
            tools,
            function.name@,
        ) {
            Some(t) => Some(Shape::Call(tool_shape(t))),
            None => None,
        },
        Some(ToolChoice::Mode(mode)) => if mode@ == "required"@ && tools.len() > 0 {
            Some(Shape::AnyCall(Seq::new(tools.len(), |i: int| tool_shape(tools[i]))))
        } else {
            None
        },
        None => None,
    }
}

fn call_schema(t: &Tool) -> (c: CallSchema)
    ensures
        call_shape(c) == tool_shape(*t),
{
    CallSchema {
        name: t.function.name.clone(),
        parameters: match &t.function.parameters {
            Some(p) => p.clone(),
            None => "{\"type\":\"object\"}".to_string(),
        },
    }
}

fn get_tool<'a>(tools: &'a [Tool], name: &str) -> (t: Option<&'a Tool>)
    ensures
        match t {
            Some(t) => find_tool(tools@, name@) == Some(*t),
            None => find_tool(tools@, name@) is None,
        },
{
    let mut i: usize = 0;
    assert(tools@.skip(0) =~= tools@);
    while i < tools.len()
        invariant
            i <= tools@.len(),
            find_tool(tools@.skip(i as int), name@) == find_tool(tools@, name@),
        decreases tools@.len() - i,
    {
        if same_text(tools[i].function.name.as_str(), name) {
            return Some(&tools[i]);
        }
        assert(tools@.skip(i as int).skip(1) =~= tools@.skip(i + 1));
        i = i + 1;
    }
    None
}

proof fn lemma_found_has_the_name(tools: Seq<Tool>, name: Seq<char>)
    ensures
        find_tool(tools, name) matches Some(t) ==> t.function.name@ == name,
    decreases tools.len(),
{
    if tools.len() > 0 && tools[0].function.name@ != name {
        lemma_found_has_the_name(tools.skip(1), name);
    }
}

/// The constraint that the choice of a tool asks for.
pub fn resolve_tool_constraint(tools: &[Tool], tool_choice: Option<&ToolChoice>) -> (c: Option<
    ConstraintSpec,
>)
    ensures
        shape_of(c) == choice_shape(tools@, tool_choice),
{
    match tool_choice {
        Some(ToolChoice::Function { tool_type: _, function }) => match get_tool(
            tools,
            function.name.as_str(),
        ) {
            Some(t) => Some(ConstraintSpec::JsonSchema(SchemaSpec::Call(call_schema(t)))),
            None => None,
        },
        Some(ToolChoice::Mode(mode)) => {
            if same_text(mode.as_str(), "required") && tools.len() > 0 {
                let mut v: Vec<CallSchema> = Vec::new();
                let mut i: usize = 0;
                while i < tools.len()
                    invariant
                        i <= tools@.len(),
                        v@.len() == i,
                        forall|k: int|
                            0 <= k < i ==> call_shape(#[trigger] v@[k]) == tool_shape(tools@[k]),
                    decreases tools@.len() - i,
                {
                    v.push(call_schema(&tools[i]));
                    i = i + 1;
                }
                assert(Seq::new(v@.len(), |k: int| call_shape(v@[k])) =~= Seq::new(
                    tools@.len(),
                    |k: int| tool_shape(tools@[k]),
                ));
                Some(ConstraintSpec::JsonSchema(SchemaSpec::AnyCall(v)))
            } else {
                None
            }
        },
        None => None,
    }
}

/// The tools that a request lets the model call: none where it says so.
pub open spec fn offered(req: ChatCompletionRequest) -> Option<Seq<Tool>> {
    let off = req.tool_choice matches Some(ToolChoice::Mode(mode)) && mode@ == "none"@;
    match req.tools {
        Some(t) => if off {
            None
        } else {
            Some(t@)
        },
        None => None,
    }
}

/// The tools that a request lets the model call.
pub fn offered_tools(req: &ChatCompletionRequest) -> (t: Option<&[Tool]>)
    ensures
        match t {
            Some(t) => offered(*req) == Some(t@),
            None => offered(*req) is None,
        },
{
    let off = match &req.tool_choice {
        Some(ToolChoice::Mode(mode)) => same_text(mode.as_str(), "none"),
        _ => false,
    };
    match &req.tools {
        Some(t) => if off {
            None
        } else {
            Some(t.as_slice())
        },
        None => None,
    }
}

/// How a chat completion is constrained.
#[derive(Debug)]
pub enum ChatConstraint {
    /// Not at all.
    Free,
    /// By the output format.
    Format(ConstraintSpec),
    /// To a call of a tool. The name is known up front where only one tool can be
    /// called.
    Tools { spec: ConstraintSpec, name: Option<String> },
}

/// The tool that is called for sure.
pub open spec fn called_tool(tools: Seq<Tool>, choice: Option<ToolChoice>) -> Option<Seq<char>> {
    match choice {
        Some(ToolChoice::Function { tool_type: _, function }) => Some(function.name@),
        _ => if tools.len() == 1 {
            Some(tools[0].function.name@)
        } else {
            None
        },
    }
}

/// The text, if there is one.
pub open spec fn text_of(s: Option<String>) -> Option<Seq<char>> {
    match s {
        Some(s) => Some(s@),
        None => None,
    }
}

/// A request's constraint: the output format decides, the tools only where the format
/// asks for nothing.
pub open spec fn is_chat_constraint(req: ChatCompletionRequest, c: ChatConstraint) -> bool {
    let format = match req.response_format {
        Some(rf) => format_shape(rf),
        None => None,
    };
    let choice = match offered(req) {
        Some(t) => choice_shape(
            t,
            match req.tool_choice {
                Some(tc) => Some(&tc),
                None => None,
            },
        ),
        None => None,
    };
    match c {
        ChatConstraint::Format(spec) => format == Some(shape(spec)),
        ChatConstraint::Tools { spec, name } => {
            &&& format is None
            &&& choice == Some(shape(spec))
            &&& text_of(name) == called_tool(offered(req)->0, req.tool_choice)
        },
        ChatConstraint::Free => format is None && choice is None,
    }
}

/// How a chat completion is constrained.
pub fn chat_constraint(req: &ChatCompletionRequest) -> (c: ChatConstraint)
    ensures
        is_chat_constraint(*req, c),
{
    let format = match &req.response_format {
        Some(rf) => resolve_constraint(Some(rf)),
        None => None,
    };
    match format {
        Some(spec) => ChatConstraint::Format(spec),
        None => match offered_tools(req) {
            Some(tools) => {
                let choice = match &req.tool_choice {
                    Some(tc) => Some(tc),
                    None => None,
                };
                match resolve_tool_constraint(tools, choice) {
                    Some(spec) => {
                        let name = match &req.tool_choice {
                            Some(ToolChoice::Function { tool_type: _, function }) => Some(
                                function.name.clone(),
                            ),
                            _ => if tools.len() == 1 {
                                Some(tools[0].function.name.clone())
                            } else {
                                None
                            },
                        };
                        ChatConstraint::Tools { spec, name }
                    },
                    None => ChatConstraint::Free,
                }
            },
            None => ChatConstraint::Free,
        },
    }
}

/// A tool that is chosen by name is the only one that the output can call.
pub proof fn law_chosen_tool_is_the_one_called(req: ChatCompletionRequest, c: ChatConstraint)
    requires
        is_chat_constraint(req, c),
        c is Tools,
        req.tool_choice matches Some(ToolChoice::Function { tool_type: _, function: _ }),
    ensures
        ({
            let chosen = req.tool_choice->0->function.name@;
            &&& shape(c->Tools_spec) matches Shape::Call(s) && s.name == chosen
            &&& text_of(c->name) == Some(chosen)
        }),
{
    lemma_found_has_the_name(offered(req)->0, req.tool_choice->0->function.name@);
}

/// Refuse a constraint that turned out to be unusable, for the reason given.
pub fn refuse_constraint(c: &ChatConstraint, why: &str) -> (e: ApiError)
    ensures
        e.status == BAD_REQUEST,
        e.message@ == (if c is Tools {
            "invalid tools schema: "@
        } else {
            "invalid response_format: "@
        }) + why@,
{
    let mut message = String::new();
    match c {
        ChatConstraint::Tools { .. } => {
            message.append("invalid tools schema: ");
        },
        _ => {
            message.append("invalid response_format: ");
        },
    }
    message.append(why);
    ApiError { status: BAD_REQUEST, message }
}

// ── Schemas ──────────────────────────────────────────────────────────────────

/// The JSON text that `serde_json` writes for a string.
pub uninterp spec fn json_string(text: Seq<char>) -> Seq<char>;

/// `serde_json::Value::from` on `text`, then `Value::to_string`: the text as a JSON
/// string, quoted and escaped. The result depends on the text alone.
#[verifier::external_body]
fn quote_json(text: &str) -> (s: String)
    ensures
        s@ == json_string(text@),
{
    serde_json::Value::from(text).to_string()
}

/// The schema of a call: an object with the tool's name, given as JSON, and arguments
/// of their own schema.
pub open spec fn call_json(name: Seq<char>, parameters: Seq<char>) -> Seq<char> {
    "{\"type\":\"object\",\"properties\":{\"name\":{\"type\":\"string\",\"enum\":["@ + name
        + "]},\"arguments\":"@ + parameters + "},\"required\":[\"name\",\"arguments\"]}"@
}

/// The schema of a call, as JSON text. The name is given as JSON.
pub fn call_schema_text(name: &str, parameters: &str) -> (s: String)
    ensures
        s@ == call_json(name@, parameters@),
{
    let mut s = String::new();
    s.append("{\"type\":\"object\",\"properties\":{\"name\":{\"type\":\"string\",\"enum\":[");
    s.append(name);
    s.append("]},\"arguments\":");
    s.append(parameters);
    s.append("},\"required\":[\"name\",\"arguments\"]}");
    assert(s@ =~= call_json(name@, parameters@));
    s
}

/// The schemas of the calls of some tools.
pub open spec fn calls_json(calls: Seq<CallShape>) -> Seq<Seq<char>> {
    Seq::new(calls.len(), |i: int| call_json(json_string(calls[i].name), calls[i].parameters))
}

/// A schema as JSON text: the client's own as it stands, a call of the one tool, or a
/// choice between the calls of several.
pub open spec fn schema_json(spec: SchemaSpec) -> Seq<char> {
    match spec {
        SchemaSpec::Given(s) => s@,
        SchemaSpec::Call(c) => call_json(json_string(c.name@), c.parameters@),
        SchemaSpec::AnyCall(v) => "{\"anyOf\":["@ + joined(
            calls_json(Seq::new(v@.len(), |i: int| call_shape(v@[i]))),
            ","@,
        ) + "]}"@,
    }
}

/// A schema as JSON text, for the constraint compiler.
pub fn schema_text(spec: &SchemaSpec) -> (s: String)
    ensures
        s@ == schema_json(*spec),
{
    match spec {
        SchemaSpec::Given(s) => s.clone(),
        SchemaSpec::Call(c) => call_schema_text(
            quote_json(c.name.as_str()).as_str(),
            c.parameters.as_str(),
        ),
        SchemaSpec::AnyCall(v) => {
            let ghost all = calls_json(Seq::new(v@.len(), |i: int| call_shape(v@[i])));
            let mut s = String::new();
            s.append("{\"anyOf\":[");
            let ghost head = s@;
            let mut i: usize = 0;
            assert(head + joined(all.take(0), ","@) =~= head);
            while i < v.len()
                invariant
                    i <= v@.len(),
                    all == calls_json(Seq::new(v@.len(), |i: int| call_shape(v@[i]))),
                    s@ == head + joined(all.take(i as int), ","@),
                decreases v@.len() - i,
            {
                let one = call_schema_text(
                    quote_json(v[i].name.as_str()).as_str(),
                    v[i].parameters.as_str(),
                );
                proof {
                    assert(all.take(i + 1).drop_last() =~= all.take(i as int));
                    assert(all.take(i + 1).last() == one@);
                }
                if i > 0 {
                    s.append(",");
                }
                s.append(one.as_str());
                assert(s@ =~= head + joined(all.take(i + 1), ","@));
                i = i + 1;
            }
            assert(all.take(i as int) =~= all);
            s.append("]}");
            assert(head =~= "{\"anyOf\":["@);
            s
        },
    }
}

// ── Calls ────────────────────────────────────────────────────────────────────

/// The string that `serde_json` finds under `key`, where `text` is a JSON object that
/// has a string there.
pub uninterp spec fn string_member(text: Seq<char>, key: Seq<char>) -> Option<Seq<char>>;

/// The JSON text that `serde_json` writes for the value under `key`, where `text` is a
/// JSON object that has one there.
pub uninterp spec fn json_member(text: Seq<char>, key: Seq<char>) -> Option<Seq<char>>;

/// `serde_json::from_str` on `text`, then `Value::get` and `Value::as_str`: the string
/// under `key`. Nothing where the text is no JSON, is no object, or has no string
/// there. The result depends on the two texts alone.
#[verifier::external_body]
fn get_string(text: &str, key: &str) -> (s: Option<String>)
    ensures
        text_of(s) == string_member(text@, key@),
{
    let value: serde_json::Value = serde_json::from_str(text).ok()?;
    value.get(key)?.as_str().map(|s| s.to_string())
}

/// `serde_json::from_str` on `text`, then `Value::get` and `Value::to_string`: the
/// value under `key`, written as compact JSON. Nothing where the text is no JSON, is
/// no object, or has no such key. The result depends on the two texts alone.
#[verifier::external_body]
fn get_json(text: &str, key: &str) -> (s: Option<String>)
    ensures
        text_of(s) == json_member(text@, key@),
{
    let value: serde_json::Value = serde_json::from_str(text).ok()?;
    value.get(key).map(|v| v.to_string())
}

/// The call that an output makes, given what it has under `name` and `arguments`:
/// one of a tool on offer, with its arguments as text. Arguments that are a string
/// are taken as they are.
pub open spec fn call_made(
    tools: Seq<Tool>,
    name: Option<Seq<char>>,
    text_arguments: Option<Seq<char>>,
    json_arguments: Option<Seq<char>>,
) -> Option<(Seq<char>, Seq<char>)> {
    if name is None || find_tool(tools, name->0) is None {
        None
    } else if text_arguments is Some {
        Some((name->0, text_arguments->0))
    } else if json_arguments is Some {
        Some((name->0, json_arguments->0))
    } else {
        None
    }
}

/// `c` is a call of a function, with that identifier.
pub open spec fn is_call(c: ToolCall, id: Seq<char>, call: (Seq<char>, Seq<char>)) -> bool {
    &&& c.id@ == id
    &&& c.tool_type@ == "function"@
    &&& c.function.name@ == call.0
    &&& c.function.arguments@ == call.1
}

/// The call that an output makes, given what it has under `name` and `arguments`.
pub fn tool_call_of(
    tools: &[Tool],
    name: Option<String>,
    text_arguments: Option<String>,
    json_arguments: Option<String>,
    id: String,
) -> (c: Option<ToolCall>)
    ensures
        match (
            c,
            call_made(
                tools@,
                text_of(name),
                text_of(text_arguments),
                text_of(json_arguments),
            ),
        ) {
            (Some(c), Some(call)) => is_call(c, id@, call),
            (None, None) => true,
            _ => false,
        },
{
    let name = match name {
        Some(n) => n,
        None => {
            return None;
        },
    };
    if get_tool(tools, name.as_str()).is_none() {
        return None;
    }
    let arguments = match text_arguments {
        Some(a) => a,
        None => match json_arguments {
            Some(a) => a,
            None => {
                return None;
            },
        },
    };
    Some(ToolCall { id, tool_type: "function".to_string(), function: FunctionCall { name, arguments } })
}

/// The call that an output makes: none where no tool is on offer or the output does
/// not start like an object.
pub open spec fn call_in(text: Seq<char>, tools: Option<Seq<Tool>>) -> Option<
    (Seq<char>, Seq<char>),
> {
    let t = trim(text);
    if tools is None || tools->0.len() == 0 || t.len() == 0 || t[0] != '{' {
        None
    } else {
        call_made(
            tools->0,
            string_member(t, "name"@),
            string_member(t, "arguments"@),
            json_member(t, "arguments"@),
        )
    }
}

/// The call that an output makes, if it is one; its identifier is made at second `ts`.
pub fn maybe_parse_tool_call(text: &str, tools: Option<&[Tool]>, ts: u64) -> (calls: Option<
    Vec<ToolCall>,
>)
    ensures
        match (
            calls,
            call_in(
                text@,
                match tools {
                    Some(t) => Some(t@),
                    None => None,
                },
            ),
        ) {
            (Some(v), Some(call)) => v@.len() == 1 && is_call(
                v@[0],
                id_text("call"@, ts),
                call,
            ),
            (None, None) => true,
            _ => false,
        },
{
    let tools = match tools {
        Some(t) => t,
        None => {
            return None;
        },
    };
    if tools.len() == 0 {
        return None;
    }
    let chars = trimmed(chars_of(text).as_slice());
    if chars.len() == 0 || chars[0] != '{' {
        return None;
    }
    let object = string_of(chars.as_slice());
    let name = get_string(object.as_str(), "name");
    let text_arguments = get_string(object.as_str(), "arguments");
    let json_arguments = get_json(object.as_str(), "arguments");
    match tool_call_of(
        tools,
        name,
        text_arguments,
        json_arguments,
        gen_id_with_prefix("call", ts),
    ) {
        Some(call) => {
            let mut v: Vec<ToolCall> = Vec::new();
            v.push(call);
            Some(v)
        },
        None => None,
    }
}

// ── Laws ─────────────────────────────────────────────────────────────────────

/// `tools[i]` is the first of that name.
pub open spec fn is_first(tools: Seq<Tool>, name: Seq<char>, i: int) -> bool {
    &&& 0 <= i < tools.len()
    &&& tools[i].function.name@ == name
    &&& forall|j: int| 0 <= j < i ==> (#[trigger] tools[j]).function.name@ != name
}

/// A tool is found by its name exactly if one has it; where several have it, the first one
/// is.
pub proof fn law_the_first_tool_of_a_name_is_found(tools: Seq<Tool>, name: Seq<char>)
    ensures
        match find_tool(tools, name) {
            Some(t) => exists|i: int| #[trigger] is_first(tools, name, i) && tools[i] == t,
            None => forall|i: int|
                0 <= i < tools.len() ==> (#[trigger] tools[i]).function.name@ != name,
        },
    decreases tools.len(),
{
    if tools.len() > 0 {
        if tools[0].function.name@ == name {
            assert(is_first(tools, name, 0));
        } else {
            let rest = tools.skip(1);
            law_the_first_tool_of_a_name_is_found(rest, name);
            if find_tool(tools, name) is Some {
                let i = choose|i: int| #[trigger]
                    is_first(rest, name, i) && rest[i] == find_tool(rest, name)->0;
                assert forall|j: int| 0 <= j < i + 1 implies (#[trigger] tools[j]).function.name@
                    != name by {
                    if j > 0 {
                        assert(rest[j - 1] == tools[j]);
                    }
                }
                assert(is_first(tools, name, i + 1));
                assert(tools[i + 1] == rest[i]);
            } else {
                assert forall|j: int| 0 <= j < tools.len() implies (
                #[trigger] tools[j]).function.name@ != name by {
                    if j > 0 {
                        assert(rest[j - 1] == tools[j]);
                    }
                }
            }
        }
    }
}

/// A tool's call carries the tool's own name and its own parameters.
pub open spec fn calls_tool(c: CallShape, t: Tool) -> bool {
    &&& c.name == t.function.name@
    &&& t.function.parameters matches Some(p) ==> c.parameters == p@
    &&& t.function.parameters is None ==> c.parameters == "{\"type\":\"object\"}"@
}

/// The output format constrains the output to what it names: an object, the schema that it
/// holds, or the grammar that it holds. It does not without one, and no other format does.
pub proof fn law_formats_constrain_to_what_they_hold(rf: ResponseFormat)
    ensures
        rf.format_type@ == "json_object"@ ==> format_shape(rf) == Some(Shape::JsonObject),
        rf.format_type@ == "json_schema"@ ==> match format_shape(rf) {
            Some(Shape::Given(s)) => rf.json_schema is Some && text_of(rf.json_schema->0.schema)
                == Some(s),
            Some(_) => false,
            None => rf.json_schema is None || rf.json_schema->0.schema is None,
        },
        rf.format_type@ == "grammar"@ ==> match format_shape(rf) {
            Some(Shape::Grammar(g)) => text_of(rf.grammar) == Some(g),
            Some(_) => false,
            None => rf.grammar is None,
        },
        format_shape(rf) is Some ==> rf.format_type@ == "json_object"@ || rf.format_type@
            == "json_schema"@ || rf.format_type@ == "grammar"@,
{
    reveal_strlit("json_object");
    reveal_strlit("json_schema");
    reveal_strlit("grammar");
    assert("json_object"@[5] != "json_schema"@[5]);
    assert("grammar"@.len() != "json_object"@.len());
    assert("grammar"@.len() != "json_schema"@.len());
}

/// What the tools constrain an output to that no format constrains. Where a call is
/// required, to a call of any tool, each listed in order with its own parameters; where a
/// tool is named, to a call of the first tool of that name; otherwise to nothing.
pub proof fn law_tools_constrain_as_chosen(req: ChatCompletionRequest, c: ChatConstraint)
    requires
        is_chat_constraint(req, c),
    ensures
        req.response_format is Some && format_shape(req.response_format->0) is Some ==> c is Format,
        c is Format ==> req.response_format is Some && format_shape(req.response_format->0) == Some(
            shape(c->Format_0),
        ),
        c is Tools ==> req.tools is Some && match req.tool_choice {
            Some(ToolChoice::Mode(mode)) => {
                &&& mode@ == "required"@
                &&& shape(c->Tools_spec) matches Shape::AnyCall(calls)
                &&& calls.len() == req.tools->0@.len() && calls.len() > 0
                &&& forall|i: int|
                    0 <= i < calls.len() ==> calls_tool(#[trigger] calls[i], req.tools->0@[i])
            },
            Some(ToolChoice::Function { tool_type: _, function }) => {
                &&& shape(c->Tools_spec) matches Shape::Call(call)
                &&& exists|i: int| #[trigger]
                    is_first(req.tools->0@, function.name@, i) && calls_tool(
                        call,
                        req.tools->0@[i],
                    )
            },
            None => false,
        },
        c is Free && req.tools is Some ==> match req.tool_choice {
            Some(ToolChoice::Mode(mode)) => mode@ == "required"@ ==> req.tools->0@.len() == 0,
            Some(ToolChoice::Function { tool_type: _, function }) => forall|i: int|
                0 <= i < req.tools->0@.len() ==> (#[trigger] req.tools->0@[i]).function.name@
                    != function.name@,
            None => true,
        },
{
    reveal_strlit("none");
    reveal_strlit("required");
    assert("none"@.len() != "required"@.len());
    if req.tools is Some {
        match req.tool_choice {
            Some(ToolChoice::Function { tool_type: _, function }) => {
                law_the_first_tool_of_a_name_is_found(req.tools->0@, function.name@);
            },
            _ => {},
        }
    }
}

/// The tools are on offer as the request lists them, unless its choice is `none`.
pub proof fn law_tools_are_on_offer_unless_refused(req: ChatCompletionRequest)
    ensures
        match offered(req) {
            Some(tools) => req.tools matches Some(t) && t@ == tools && !(
            req.tool_choice matches Some(ToolChoice::Mode(mode)) && mode@ == "none"@),
            None => req.tools is None || (req.tool_choice matches Some(ToolChoice::Mode(mode))
                && mode@ == "none"@),
        },
{
}

/// An output is a call exactly if it is an object that names a tool on offer and has
/// arguments; the call is of that tool, with those arguments, a string being taken as it is.
pub proof fn law_calls_are_of_tools_on_offer(text: Seq<char>, tools: Seq<Tool>)
    ensures
        ({
            let object = trim(text);
            let name = string_member(object, "name"@);
            let said = string_member(object, "arguments"@);
            let written = json_member(object, "arguments"@);
            match call_in(text, Some(tools)) {
                Some(call) => {
                    &&& object.len() > 0 && object[0] == '{'
                    &&& name == Some(call.0)
                    &&& exists|i: int| #[trigger] is_first(tools, call.0, i)
                    &&& Some(call.1) == if said is Some {
                        said
                    } else {
                        written
                    }
                },
                None => {
                    ||| object.len() == 0 || object[0] != '{'
                    ||| name is None
                    ||| forall|i: int|
                        0 <= i < tools.len() ==> (#[trigger] tools[i]).function.name@ != name->0
                    ||| said is None && written is None
                },
            }
        }),
        call_in(text, None) is None,
{
    let name = string_member(trim(text), "name"@);
    if name is Some {
        law_the_first_tool_of_a_name_is_found(tools, name->0);
    }
}

/// The schema of a call holds the name and, behind it, the parameters.
pub proof fn law_call_schemas_hold_both_texts(name: Seq<char>, parameters: Seq<char>) -> (at: (
    int,
    int,
))
    ensures
        0 <= at.0,
        at.0 + name.len() < at.1,
        at.1 + parameters.len() < call_json(name, parameters).len(),
        call_json(name, parameters).subrange(at.0, at.0 + name.len() as int) == name,
        call_json(name, parameters).subrange(at.1, at.1 + parameters.len() as int) == parameters,
{
    let head = "{\"type\":\"object\",\"properties\":{\"name\":{\"type\":\"string\",\"enum\":["@;
    let mid = "]},\"arguments\":"@;
    let tail = "},\"required\":[\"name\",\"arguments\"]}"@;
    reveal_strlit("]},\"arguments\":");
    reveal_strlit("},\"required\":[\"name\",\"arguments\"]}");
    let all = call_json(name, parameters);
    let a = head.len() as int;
    let b = a + name.len() + mid.len();
    assert(all.len() == b + parameters.len() + tail.len());
    assert(all.subrange(a, a + name.len() as int) =~= name);
    assert(all.subrange(b, b + parameters.len() as int) =~= parameters);
    (a, b)
}

/// The schema of a choice between calls holds the schema of each of them, in order, for the
/// tool's name as JSON and its parameters, with a comma between neighbours.
pub proof fn law_every_call_is_in_the_schema(v: Vec<CallSchema>, i: int) -> (at: int)
    requires
        0 <= i < v@.len(),
    ensures
        ({
            let all = schema_json(SchemaSpec::AnyCall(v));
            let one = call_json(json_string(v@[i].name@), v@[i].parameters@);
            &&& 0 < at && at + one.len() <= all.len()
            &&& all.subrange(at, at + one.len() as int) == one
            &&& i > 0 ==> all[at - 1] == ','
        }),
{
    let calls = calls_json(Seq::new(v@.len(), |i: int| call_shape(v@[i])));
    let list = joined(calls, ","@);
    let inner = lemma_joined_holds(calls, ","@, i);
    let all = schema_json(SchemaSpec::AnyCall(v));
    reveal_strlit("{\"anyOf\":[");
    reveal_strlit(",");
    let head = "{\"anyOf\":["@.len() as int;
    let one = calls[i];
    let at = head + inner;
    assert(all.subrange(at, at + one.len() as int) =~= list.subrange(
        inner,
        inner + one.len() as int,
    ));
    if i > 0 {
        assert(list.subrange(inner - 1, inner)[0] == list[inner - 1]);
        assert(all[at - 1] == list[inner - 1]);
    }
    at
}

} // verus!
