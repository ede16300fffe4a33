//! Requests, responses, streams and counters.
use glint::server::constraint::{
    call_schema_text, chat_constraint, maybe_parse_tool_call, offered_tools, refuse_constraint,
    resolve_constraint, resolve_tool_constraint, schema_text, tool_call_of, CallSchema,
    ChatConstraint, ConstraintSpec, SchemaSpec,
};
use glint::server::engine::{Finish, SubmitError};
use glint::server::ids::{gen_id, gen_id_with_prefix};
use glint::server::metrics::Metrics;
use glint::server::prepare::{
    answer_refusal, api_error, chat_prompt, format_tools_system_prompt,
    prepare_generation_from_prompt, responses_messages, sampler_config_from_params, validate_model, ONE,
};
use glint::server::respond::{
    build_responses_response, chat_response, completion_response, embedding_texts,
    embedding_usage, finish_reason_for, list_models, on_submission, responses_response, Collector,
    CompletedGeneration,
};
use glint::server::state::{AppState, Metrics as PlainMetrics};
use glint::server::stream::{
    ChatStream, CompletionStream, Meter, ResponsesStream, StreamEvent, TRUNCATED_SSE_BODY,
};
use glint::server::types::{
    ChatCompletionRequest, ChatMessage, EmbeddingInput, EmbeddingRequest,
    JsonSchemaResponseFormat, ResponseFormat, ResponseInput, ResponseInputContent,
    ResponseInputContentPart, ResponseInputMessage, ResponsesRequest, SamplingParams, Tool,
    ToolChoice, ToolChoiceFunction, ToolFunction,
};
use glint::transformer::config::ModelConfig;

fn no_sampling() -> SamplingParams {
    SamplingParams { temperature: None, top_p: None, top_k: None, repeat_penalty: None, seed: None }
}

fn state() -> AppState {
    AppState {
        model_name: "smol".to_string(),
        config: ModelConfig {
            context_length: 64,
            embedding_length: 32,
            block_count: 2,
            head_count: 4,
            head_count_kv: 2,
            vocab_size: 16,
            sliding_window: None,
            sliding_window_alternating: false,
            head_dim_override: None,
            rotary_dim: None,
            final_softcap: false,
        },
        eos_token: 2,
    }
}

fn message(role: &str, content: &str) -> ChatMessage {
    ChatMessage {
        role: role.to_string(),
        content: Some(content.to_string()),
        name: None,
        tool_calls: None,
        tool_call_id: None,
    }
}

fn tool(name: &str, parameters: Option<&str>) -> Tool {
    Tool {
        tool_type: "function".to_string(),
        function: ToolFunction {
            name: name.to_string(),
            description: None,
            parameters: parameters.map(|p| p.to_string()),
            strict: None,
        },
    }
}

// ── Input ────────────────────────────────────────────────────────────────────

#[test]
fn response_string_input_becomes_user_message() {
    let input = ResponseInput::Text("Hello".to_string());
    let messages = input.to_messages(None).unwrap();
    assert_eq!(messages.len(), 1);
    assert_eq!(messages[0].role, "user");
    assert_eq!(messages[0].content_str(), "Hello");
}

#[test]
fn response_instructions_prepend_system_message() {
    let input = ResponseInput::Text("Hello".to_string());
    let messages = input.to_messages(Some("Be concise")).unwrap();
    assert_eq!(messages.len(), 2);
    assert_eq!(messages[0].role, "system");
    assert_eq!(messages[0].content_str(), "Be concise");
    assert_eq!(messages[1].role, "user");
}

#[test]
fn response_content_parts_concatenate_text() {
    let input = ResponseInput::Messages(vec![ResponseInputMessage {
        role: "user".to_string(),
        content: ResponseInputContent::Parts(vec![
            ResponseInputContentPart {
                part_type: "input_text".to_string(),
                text: Some("Hello".to_string()),
            },
            ResponseInputContentPart {
                part_type: "text".to_string(),
                text: Some(" world".to_string()),
            },
        ]),
    }]);

    let messages = input.to_messages(None).unwrap();
    assert_eq!(messages.len(), 1);
    assert_eq!(messages[0].content_str(), "Hello world");
}

#[test]
fn response_rejects_non_text_parts() {
    let input = ResponseInput::Messages(vec![ResponseInputMessage {
        role: "user".to_string(),
        content: ResponseInputContent::Parts(vec![ResponseInputContentPart {
            part_type: "input_image".to_string(),
            text: None,
        }]),
    }]);

    let err = input.to_messages(None).unwrap_err();
    assert!(err.contains("only text is supported"));
}

#[test]
fn unusable_inputs_are_refused() {
    assert_eq!(
        ResponseInput::Text(" \n\t\u{3000}".to_string()).to_messages(None).unwrap_err(),
        "input must not be empty"
    );
    assert_eq!(
        ResponseInput::Messages(vec![]).to_messages(Some("x")).unwrap_err(),
        "input must not be empty"
    );
    let part = ResponseInputContent::Parts(vec![ResponseInputContentPart {
        part_type: "text".to_string(),
        text: None,
    }]);
    assert_eq!(part.as_text().unwrap_err(), "text content part is missing `text`");
    let image = ResponseInputContent::Parts(vec![ResponseInputContentPart {
        part_type: "input_image".to_string(),
        text: None,
    }]);
    assert_eq!(
        image.as_text().unwrap_err(),
        "unsupported responses input content type 'input_image'; only text is supported"
    );
    // Blank instructions are no message.
    let messages = ResponseInput::Text("a".to_string()).to_messages(Some("  ")).unwrap();
    assert_eq!(messages.len(), 1);
}

#[test]
fn message_without_content_is_empty() {
    let mut m = message("user", "x");
    m.content = None;
    assert_eq!(m.content_str(), "");
}

#[test]
fn embedding_input_is_one_text_or_several() {
    assert_eq!(EmbeddingInput::Single("a".to_string()).as_strings(), vec!["a"]);
    let batch = EmbeddingInput::Batch(vec!["a".to_string(), "b".to_string()]);
    assert_eq!(batch.as_strings(), vec!["a", "b"]);
}

// ── Preparation ──────────────────────────────────────────────────────────────

#[test]
fn identifiers_follow_from_the_second() {
    let ts: u64 = 0x6543_21ab;
    let mut s = ts ^ 0xdeadbeef_cafebabe;
    s ^= s << 13;
    s ^= s >> 7;
    s ^= s << 17;
    let noise = s & 0xffffff;
    assert_eq!(gen_id_with_prefix("call", ts), format!("call-{ts:x}{noise:06x}"));
    assert_eq!(gen_id(ts), format!("cmpl-{ts:x}{noise:06x}"));
    assert_ne!(gen_id(ts), gen_id(ts + 1));
}

#[test]
fn some_names_stand_for_any_model() {
    for name in ["smol", "default", "auto", "glint", ""] {
        assert!(validate_model(name, "smol").is_ok(), "{name}");
    }
    let e = validate_model("gpt", "smol").unwrap_err();
    assert_eq!(e.status, 404);
    assert_eq!(e.message, "model 'gpt' not found; available: smol");
    let body = api_error(&e);
    assert_eq!(body.error.error_type, "api_error");
    assert_eq!(body.error.code, 404);
    assert_eq!(body.error.message, e.message);
}

#[test]
fn a_refused_request_counts_as_failed_and_nothing_else() {
    let mut m = Metrics::new();
    let e = validate_model("gpt", "smol").unwrap_err();
    let body = answer_refusal(&e, &mut m);
    assert_eq!((body.error.code, body.error.error_type), (404, "api_error"));
    assert_eq!(body.error.message, "model 'gpt' not found; available: smol");
    assert_eq!(m.requests_failed, 1);
    assert_eq!((m.requests_total, m.active_sessions, m.queue_depth), (0, 0, 0));
}

#[test]
fn gauges_count_what_is_under_way_in_any_order() {
    let mut m = Metrics::new();
    m.on_submit();
    m.on_submit();
    m.on_first_token();
    m.on_submit();
    m.on_complete();
    assert_eq!((m.active_sessions, m.queue_depth), (2, 2));
    // A client that goes away is no longer in flight.
    Meter::new().abandon(&mut m);
    assert_eq!((m.active_sessions, m.queue_depth), (1, 2));
    assert_eq!((m.requests_total, m.requests_failed, m.tokens_generated), (0, 0, 0));
}

#[test]
fn schemas_are_written_as_json() {
    let call = |name: &str| CallSchema {
        name: name.to_string(),
        parameters: "{\"type\":\"object\"}".to_string(),
    };
    assert_eq!(schema_text(&SchemaSpec::Given("{\"a\": 1}".to_string())), "{\"a\": 1}");
    let one = schema_text(&SchemaSpec::Call(call("say \"hi\"")));
    assert_eq!(
        one,
        "{\"type\":\"object\",\"properties\":{\"name\":{\"type\":\"string\",\"enum\":[\"say \\\"hi\\\"\"]},\
         \"arguments\":{\"type\":\"object\"}},\"required\":[\"name\",\"arguments\"]}"
    );
    let any = schema_text(&SchemaSpec::AnyCall(vec![call("f"), call("g")]));
    let v: serde_json::Value = serde_json::from_str(&any).unwrap();
    let options = v["anyOf"].as_array().unwrap();
    assert_eq!(options.len(), 2);
    for (option, name) in options.iter().zip(["f", "g"]) {
        assert_eq!(option["type"], "object");
        assert_eq!(option["properties"]["name"]["enum"][0], name);
        assert_eq!(option["properties"]["arguments"]["type"], "object");
        assert_eq!(option["required"].as_array().unwrap().len(), 2);
    }
    assert_eq!(
        call_schema_text("\"f\"", "true"),
        "{\"type\":\"object\",\"properties\":{\"name\":{\"type\":\"string\",\"enum\":[\"f\"]},\
         \"arguments\":true},\"required\":[\"name\",\"arguments\"]}"
    );
}

#[test]
fn knobs_have_defaults() {
    let s = sampler_config_from_params(no_sampling());
    assert_eq!(f32::from_bits(s.temperature), 1.0);
    assert_eq!(f32::from_bits(s.top_p), 1.0);
    assert_eq!(f32::from_bits(s.repeat_penalty), 1.0);
    assert_eq!((s.top_k, s.seed), (0, None));
    assert_eq!(s.temperature, ONE);
    let mut p = no_sampling();
    p.temperature = Some(0.5f32.to_bits());
    p.seed = Some(7);
    let s = sampler_config_from_params(p);
    assert_eq!(f32::from_bits(s.temperature), 0.5);
    assert_eq!(s.seed, Some(7));
}

#[test]
fn budget_is_bounded_by_the_context() {
    let st = state();
    let prepared =
        prepare_generation_from_prompt(&st, "smol", vec![1; 10], None, no_sampling()).unwrap();
    assert_eq!((prepared.prompt_len, prepared.max_tokens, prepared.eos), (10, 54, 2));
    let prepared =
        prepare_generation_from_prompt(&st, "smol", vec![1; 10], Some(5), no_sampling()).unwrap();
    assert_eq!(prepared.max_tokens, 5);
    let e = prepare_generation_from_prompt(&st, "smol", vec![1; 64], None, no_sampling())
        .err()
        .unwrap();
    assert_eq!(e.status, 400);
    assert_eq!(e.message, "prompt (64 tokens) exceeds model context window (64 tokens)");
    assert!(prepare_generation_from_prompt(&st, "smol", vec![1; 63], None, no_sampling()).is_ok());
    let e = prepare_generation_from_prompt(&st, "other", vec![1; 64], None, no_sampling())
        .err()
        .unwrap();
    assert_eq!(e.status, 404);
}

#[test]
fn tools_are_listed_in_the_system_message() {
    let listed = format_tools_system_prompt(&["{A}".to_string(), "{B}".to_string()]);
    assert_eq!(
        listed,
        "\nYou have access to the following tools/functions:\n```json\n[\n{A},\n{B}\n]\n```\nTo call a tool, respond with a JSON object format: `{\"name\": \"function_name\", \"arguments\": {\"param\": \"value\"}}`.\n"
    );
    let tools = ["{A}".to_string()];
    let one = format_tools_system_prompt(&tools);

    let ms = [message("system", "Be brief."), message("user", "Hi")];
    let prompt = chat_prompt(&ms, Some(&tools)).unwrap();
    assert_eq!(prompt.len(), 2);
    assert_eq!(prompt[0].content, format!("Be brief.{one}"));
    assert_eq!(prompt[1].content, "Hi");

    let ms = [message("user", "Hi")];
    let prompt = chat_prompt(&ms, Some(&tools)).unwrap();
    assert_eq!(prompt.len(), 2);
    assert_eq!((prompt[0].role.as_str(), prompt[0].content.as_str()), ("system", one.as_str()));

    assert_eq!(chat_prompt(&ms, None).unwrap().len(), 1);
    assert_eq!(chat_prompt(&ms, Some(&[])).unwrap().len(), 1);
    let e = chat_prompt(&[], None).err().unwrap();
    assert_eq!((e.status, e.message.as_str()), (400, "messages must not be empty"));
}

#[test]
fn responses_request_becomes_a_conversation() {
    let mut req = ResponsesRequest {
        model: "smol".to_string(),
        input: ResponseInput::Text("Hi".to_string()),
        instructions: Some("Be brief.".to_string()),
        max_output_tokens: None,
        sampling: no_sampling(),
        stream: None,
    };
    assert_eq!(responses_messages(&req).unwrap().len(), 2);
    req.input = ResponseInput::Text(String::new());
    let e = responses_messages(&req).err().unwrap();
    assert_eq!((e.status, e.message.as_str()), (400, "input must not be empty"));
}

// ── Constraints and calls ────────────────────────────────────────────────────

fn format_of(kind: &str) -> ResponseFormat {
    ResponseFormat {
        format_type: kind.to_string(),
        json_schema: Some(JsonSchemaResponseFormat {
            name: "s".to_string(),
            description: None,
            schema: Some("{}".to_string()),
            strict: None,
        }),
        grammar: Some("root ::= \"a\"".to_string()),
    }
}

#[test]
fn output_format_decides_the_constraint() {
    assert!(matches!(
        resolve_constraint(Some(&format_of("json_object"))),
        Some(ConstraintSpec::JsonObject)
    ));
    assert!(matches!(
        resolve_constraint(Some(&format_of("json_schema"))),
        Some(ConstraintSpec::JsonSchema(SchemaSpec::Given(s))) if s == "{}"
    ));
    assert!(matches!(
        resolve_constraint(Some(&format_of("grammar"))),
        Some(ConstraintSpec::Grammar(g)) if g == "root ::= \"a\""
    ));
    assert!(resolve_constraint(Some(&format_of("text"))).is_none());
    assert!(resolve_constraint(None).is_none());
    let mut bare = format_of("json_schema");
    bare.json_schema = None;
    assert!(resolve_constraint(Some(&bare)).is_none());
}

fn chosen(name: &str) -> ToolChoice {
    ToolChoice::Function {
        tool_type: "function".to_string(),
        function: ToolChoiceFunction { name: name.to_string() },
    }
}

#[test]
fn choice_of_a_tool_decides_the_constraint() {
    let tools = [tool("a", None), tool("b", Some("{\"x\":1}"))];
    match resolve_tool_constraint(&tools, Some(&chosen("b"))) {
        Some(ConstraintSpec::JsonSchema(SchemaSpec::Call(c))) => {
            assert_eq!((c.name.as_str(), c.parameters.as_str()), ("b", "{\"x\":1}"));
        }
        other => panic!("{other:?}"),
    }
    assert!(resolve_tool_constraint(&tools, Some(&chosen("c"))).is_none());
    match resolve_tool_constraint(&tools, Some(&ToolChoice::Mode("required".to_string()))) {
        Some(ConstraintSpec::JsonSchema(SchemaSpec::AnyCall(v))) => {
            assert_eq!(v.len(), 2);
            assert_eq!(v[0].parameters, "{\"type\":\"object\"}");
        }
        other => panic!("{other:?}"),
    }
    assert!(resolve_tool_constraint(&[], Some(&ToolChoice::Mode("required".to_string()))).is_none());
    assert!(resolve_tool_constraint(&tools, Some(&ToolChoice::Mode("auto".to_string()))).is_none());
    assert!(resolve_tool_constraint(&tools, None).is_none());
}

fn chat(tools: Option<Vec<Tool>>, choice: Option<ToolChoice>) -> ChatCompletionRequest {
    ChatCompletionRequest {
        model: "smol".to_string(),
        messages: vec![message("user", "Hi")],
        max_tokens: None,
        sampling: no_sampling(),
        stream: None,
        response_format: None,
        tools,
        tool_choice: choice,
    }
}

#[test]
fn format_comes_before_tools() {
    let mut req = chat(Some(vec![tool("a", None)]), Some(chosen("a")));
    match chat_constraint(&req) {
        ChatConstraint::Tools { name, .. } => assert_eq!(name.as_deref(), Some("a")),
        other => panic!("{other:?}"),
    }
    let c = chat_constraint(&req);
    assert_eq!(refuse_constraint(&c, "bad").message, "invalid tools schema: bad");
    req.response_format = Some(format_of("json_object"));
    let c = chat_constraint(&req);
    assert!(matches!(c, ChatConstraint::Format(_)));
    assert_eq!(refuse_constraint(&c, "bad").message, "invalid response_format: bad");
    assert_eq!(refuse_constraint(&c, "bad").status, 400);

    let req = chat(
        Some(vec![tool("a", None), tool("b", None)]),
        Some(ToolChoice::Mode("required".to_string())),
    );
    assert!(matches!(chat_constraint(&req), ChatConstraint::Tools { name: None, .. }));
    let req = chat(Some(vec![tool("a", None)]), Some(ToolChoice::Mode("none".to_string())));
    assert!(matches!(chat_constraint(&req), ChatConstraint::Free));
    assert!(offered_tools(&req).is_none());
    assert!(matches!(chat_constraint(&chat(None, None)), ChatConstraint::Free));
}

#[test]
fn output_that_calls_a_tool_is_recognised() {
    let tools = [tool("get_weather", None)];
    let text = "  {\"name\": \"get_weather\", \"arguments\": {\"city\": \"Oslo\", \"days\": [1, 2]}}\n";
    let calls = maybe_parse_tool_call(text, Some(&tools), 77).unwrap();
    assert_eq!(calls.len(), 1);
    assert_eq!(calls[0].id, gen_id_with_prefix("call", 77));
    assert_eq!(calls[0].tool_type, "function");
    assert_eq!(calls[0].function.name, "get_weather");
    assert_eq!(calls[0].function.arguments, "{\"city\":\"Oslo\",\"days\":[1,2]}");

    // Arguments that are a string are taken as they are.
    let text = "{\"name\": \"get_weather\", \"arguments\": \"a \\\"b\\\"\"}";
    let calls = maybe_parse_tool_call(text, Some(&tools), 77).unwrap();
    assert_eq!(calls[0].function.arguments, "a \"b\"");
}

#[test]
fn other_output_is_no_call() {
    let tools = [tool("get_weather", None)];
    for text in [
        "It is sunny.",
        "",
        "{\"name\": \"get_weather\"}",
        "{\"name\": \"other\", \"arguments\": {}}",
        "{\"name\": 3, \"arguments\": {}}",
        "{\"name\": \"get_weather\", \"arguments\": {}",
        "[{\"name\": \"get_weather\", \"arguments\": {}}]",
    ] {
        assert!(maybe_parse_tool_call(text, Some(&tools), 1).is_none(), "{text}");
    }
    let call = "{\"name\": \"get_weather\", \"arguments\": {}}";
    assert!(maybe_parse_tool_call(call, None, 1).is_none());
    assert!(maybe_parse_tool_call(call, Some(&[]), 1).is_none());
    assert!(maybe_parse_tool_call(call, Some(&tools), 1).is_some());
}

#[test]
fn call_is_built_from_its_members() {
    let tools = [tool("f", None)];
    let s = |x: &str| Some(x.to_string());
    let c = tool_call_of(&tools, s("f"), s("text"), s("\"text\""), "id".to_string()).unwrap();
    assert_eq!((c.id.as_str(), c.function.arguments.as_str()), ("id", "text"));
    let c = tool_call_of(&tools, s("f"), None, s("{}"), "id".to_string()).unwrap();
    assert_eq!(c.function.arguments, "{}");
    assert!(tool_call_of(&tools, s("f"), None, None, "id".to_string()).is_none());
    assert!(tool_call_of(&tools, s("g"), s("x"), None, "id".to_string()).is_none());
    assert!(tool_call_of(&tools, None, s("x"), None, "id".to_string()).is_none());
}

// ── Responses ────────────────────────────────────────────────────────────────

#[test]
fn finish_reason_mapping() {
    assert_eq!(finish_reason_for(Finish::Stop), Some("stop"));
    assert_eq!(finish_reason_for(Finish::Length), Some("length"));
    assert_eq!(finish_reason_for(Finish::Truncated), None);
    assert_eq!(finish_reason_for(Finish::Incomplete), None);
}

#[test]
fn truncated_sse_body_is_valid_json() {
    let parsed: serde_json::Value = serde_json::from_str(TRUNCATED_SSE_BODY)
        .expect("truncation payload must be valid JSON");
    assert_eq!(parsed["error"]["code"], "truncated");
    assert_eq!(parsed["error"]["type"], "server_error");
    assert!(
        parsed["error"]["message"]
            .as_str()
            .is_some_and(|m| m.contains("truncated")),
        "message should say plainly that the response was truncated"
    );
}

fn done(finish_reason: Option<&'static str>) -> CompletedGeneration {
    CompletedGeneration { text: "Hello".to_string(), completion_tokens: 3, finish_reason }
}

#[test]
fn completion_is_answered_or_fails() {
    let mut m = Metrics::new();
    let r = completion_response("i".to_string(), 9, "smol".to_string(), 4, done(Some("stop")), &mut m)
        .unwrap();
    assert_eq!(r.object, "text_completion");
    assert_eq!(r.choices[0].text, "Hello");
    assert_eq!(r.choices[0].finish_reason, "stop");
    assert_eq!((r.usage.prompt_tokens, r.usage.completion_tokens, r.usage.total_tokens), (4, 3, 7));
    assert_eq!(m.requests_failed, 0);
    let e = completion_response("i".to_string(), 9, "smol".to_string(), 4, done(None), &mut m)
        .err()
        .unwrap();
    assert_eq!(e.status, 500);
    assert_eq!(e.message, "The response was truncated before it could be fully collected");
    assert_eq!(m.requests_failed, 1);
}

#[test]
fn chat_answer_is_text_or_a_call() {
    let mut m = Metrics::new();
    let r = chat_response(
        "i".to_string(), 9, "smol".to_string(), 4, done(Some("length")), None, &mut m,
    )
    .unwrap();
    assert_eq!(r.object, "chat.completion");
    assert_eq!(r.choices[0].message.content.as_deref(), Some("Hello"));
    assert_eq!(r.choices[0].finish_reason, "length");
    let calls = maybe_parse_tool_call(
        "{\"name\":\"f\",\"arguments\":{}}",
        Some(&[tool("f", None)]),
        1,
    );
    let r = chat_response(
        "i".to_string(), 9, "smol".to_string(), 4, done(Some("stop")), calls, &mut m,
    )
    .unwrap();
    assert!(r.choices[0].message.content.is_none());
    assert_eq!(r.choices[0].finish_reason, "tool_calls");
    assert_eq!(r.choices[0].message.tool_calls.as_ref().unwrap().len(), 1);
    assert!(chat_response(
        "i".to_string(), 9, "smol".to_string(), 4, done(None), None, &mut m,
    )
    .is_err());
}

#[test]
fn responses_object_carries_its_status() {
    let mut m = Metrics::new();
    for (reason, status) in [("stop", "completed"), ("length", "incomplete")] {
        let r = responses_response(
            "r".to_string(), "m".to_string(), 9, "smol".to_string(), 4, done(Some(reason)), &mut m,
        )
        .unwrap();
        assert_eq!((r.status, r.output[0].status), (status, status));
        assert_eq!(r.output_text, "Hello");
        assert_eq!(r.output[0].content[0].text, "Hello");
        assert_eq!(r.usage.total_tokens, 7);
    }
    assert!(responses_response(
        "r".to_string(), "m".to_string(), 9, "smol".to_string(), 4, done(None), &mut m,
    )
    .is_err());
    let r = build_responses_response(
        "r".to_string(), "m".to_string(), 9, "smol".to_string(), String::new(), 4, 0, "in_progress",
    );
    assert_eq!((r.object, r.status, r.output[0].id.as_str()), ("response", "in_progress", "m"));
}

#[test]
fn submission_is_counted_or_refused() {
    let mut m = Metrics::new();
    assert!(on_submission(Ok(()), &mut m).is_ok());
    assert_eq!((m.active_sessions, m.queue_depth), (1, 1));
    let e = on_submission(Err(SubmitError::Busy), &mut m).err().unwrap();
    assert_eq!((e.status, e.message.as_str()), (503, "Server is at capacity; retry shortly"));
    let e = on_submission(Err(SubmitError::Shutdown), &mut m).err().unwrap();
    assert_eq!(e.message, "Inference engine unavailable");
    assert_eq!(m.requests_failed, 2);
}

#[test]
fn tokens_are_collected_and_counted() {
    let mut m = Metrics::new();
    m.on_submit();
    let mut c = Collector::new();
    c.take(5, &mut m, 1500);
    c.take(6, &mut m, 9000);
    assert_eq!((m.ttft_total_us, m.queue_depth), (1500, 0));
    let d = c.close("ab".to_string(), Finish::Stop, &mut m, 12);
    assert_eq!((d.text.as_str(), d.completion_tokens, d.finish_reason), ("ab", 2, Some("stop")));
    assert_eq!(c.generated_ids, vec![5, 6]);
    assert_eq!((m.active_sessions, m.requests_total, m.tokens_generated), (0, 1, 2));
    assert_eq!((m.total_latency_ms, m.decode_total_us), (12, 12_000));
}

#[test]
fn models_and_embeddings() {
    let r = list_models("smol");
    assert_eq!(r.object, "list");
    assert_eq!((r.data[0].id.as_str(), r.data[0].object, r.data[0].owned_by), ("smol", "model", "glint"));

    let mut req = EmbeddingRequest {
        model: "smol".to_string(),
        input: EmbeddingInput::Batch(vec!["a".to_string(), "b".to_string()]),
    };
    assert_eq!(embedding_texts(&req, "smol").unwrap(), vec!["a", "b"]);
    assert_eq!(embedding_texts(&req, "other").err().unwrap().status, 404);
    req.input = EmbeddingInput::Batch(vec![]);
    let e = embedding_texts(&req, "smol").err().unwrap();
    assert_eq!((e.status, e.message.as_str()), (400, "input must not be empty"));
    let u = embedding_usage(&[3, 4]);
    assert_eq!((u.prompt_tokens, u.completion_tokens, u.total_tokens), (7, 0, 7));
}

// ── Streams ──────────────────────────────────────────────────────────────────

#[test]
fn finished_completion_stream_is_marked() {
    let mut m = Metrics::new();
    m.on_submit();
    let mut s = CompletionStream {
        id: "i".to_string(),
        created: 9,
        model: "smol".to_string(),
        meter: Meter::new(),
    };
    match s.token("He".to_string(), &mut m, 700) {
        StreamEvent::Completion(c) => {
            assert_eq!(c.choices[0].text, "He");
            assert_eq!(c.choices[0].finish_reason, None);
            assert_eq!((c.id.as_str(), c.created, c.object), ("i", 9, "text_completion"));
        }
        other => panic!("{other:?}"),
    }
    s.token("llo".to_string(), &mut m, 900);
    let events = s.finish(Finish::Length, &mut m, 5);
    assert_eq!(events.len(), 2);
    match &events[0] {
        StreamEvent::Completion(c) => {
            assert_eq!(c.choices[0].text, "");
            assert_eq!(c.choices[0].finish_reason, Some("length"));
        }
        other => panic!("{other:?}"),
    }
    assert!(matches!(events[1], StreamEvent::Done));
    assert_eq!((m.ttft_total_us, m.tokens_generated, m.active_sessions), (700, 2, 0));
    assert_eq!(m.requests_failed, 0);
}

#[test]
fn cut_stream_is_never_marked_as_finished() {
    for finish in [Finish::Truncated, Finish::Incomplete] {
        let mut m = Metrics::new();
        m.on_submit();
        let s = CompletionStream {
            id: "i".to_string(),
            created: 9,
            model: "smol".to_string(),
            meter: Meter::new(),
        };
        let events = s.finish(finish, &mut m, 5);
        assert_eq!(events.len(), 1);
        assert!(matches!(events[0], StreamEvent::Truncated(body) if body == TRUNCATED_SSE_BODY));
        assert_eq!((m.requests_failed, m.active_sessions), (1, 0));
    }
}

fn chat_stream(tool_mode: bool) -> ChatStream {
    ChatStream {
        id: "i".to_string(),
        call_id: "c".to_string(),
        created: 9,
        model: "smol".to_string(),
        tool_mode,
        tool_name: Some("f".to_string()),
        meter: Meter::new(),
    }
}

#[test]
fn chat_stream_sends_text() {
    let mut m = Metrics::new();
    let mut s = chat_stream(false);
    match s.first() {
        StreamEvent::Chat(c) => {
            assert_eq!(c.choices[0].delta.role, Some("assistant"));
            assert!(c.choices[0].delta.content.is_none() && c.choices[0].delta.tool_calls.is_none());
        }
        other => panic!("{other:?}"),
    }
    match s.token("Hi".to_string(), &mut m, 1) {
        StreamEvent::Chat(c) => assert_eq!(c.choices[0].delta.content.as_deref(), Some("Hi")),
        other => panic!("{other:?}"),
    }
    match &s.finish(Finish::Stop, &mut m, 1)[0] {
        StreamEvent::Chat(c) => assert_eq!(c.choices[0].finish_reason, Some("stop")),
        other => panic!("{other:?}"),
    }
}

#[test]
fn chat_stream_sends_a_call_in_tool_mode() {
    let mut m = Metrics::new();
    let mut s = chat_stream(true);
    match s.first() {
        StreamEvent::Chat(c) => {
            let call = &c.choices[0].delta.tool_calls.as_ref().unwrap()[0];
            assert_eq!(call.id.as_deref(), Some("c"));
            assert_eq!(call.tool_type.as_deref(), Some("function"));
            assert_eq!(call.function.as_ref().unwrap().name.as_deref(), Some("f"));
            assert_eq!(call.function.as_ref().unwrap().arguments.as_deref(), Some(""));
        }
        other => panic!("{other:?}"),
    }
    match s.token("{\"".to_string(), &mut m, 1) {
        StreamEvent::Chat(c) => {
            let call = &c.choices[0].delta.tool_calls.as_ref().unwrap()[0];
            assert!(call.id.is_none() && call.tool_type.is_none());
            assert_eq!(call.function.as_ref().unwrap().arguments.as_deref(), Some("{\""));
        }
        other => panic!("{other:?}"),
    }
    for (finish, told) in [(Finish::Stop, "tool_calls"), (Finish::Length, "length")] {
        match &s.finish(finish, &mut m, 1)[0] {
            StreamEvent::Chat(c) => assert_eq!(c.choices[0].finish_reason, Some(told)),
            other => panic!("{other:?}"),
        }
    }
    assert!(matches!(s.finish(Finish::Truncated, &mut m, 1)[0], StreamEvent::Truncated(_)));
}

#[test]
fn responses_stream_ends_with_its_whole_text() {
    let mut m = Metrics::new();
    let mut s = ResponsesStream {
        response_id: "r".to_string(),
        message_id: "m".to_string(),
        created_at: 9,
        model: "smol".to_string(),
        prompt_len: 4,
        text: String::new(),
        meter: Meter::new(),
    };
    assert!(matches!(s.first(), StreamEvent::Created(r) if r.status == "in_progress"));
    for piece in ["Hel", "lo"] {
        assert!(matches!(
            s.token(piece.to_string(), &mut m, 1),
            StreamEvent::Delta { delta, .. } if delta == piece
        ));
    }
    let events = s.finish(Finish::Length, &mut m, 1);
    assert!(matches!(&events[0], StreamEvent::TextDone { text, .. } if text == "Hello"));
    match &events[1] {
        StreamEvent::Completed(r) => {
            assert_eq!((r.status, r.output_text.as_str()), ("incomplete", "Hello"));
            assert_eq!(r.usage.total_tokens, 6);
        }
        other => panic!("{other:?}"),
    }
    let events = s.finish(Finish::Truncated, &mut m, 1);
    assert_eq!(events.len(), 1);
    assert!(matches!(&events[0], StreamEvent::Failed { response_id, .. } if response_id == "r"));
}

// ── Counters ─────────────────────────────────────────────────────────────────

#[test]
fn gauges_come_back_to_zero() {
    let mut m = Metrics::default();
    m.on_submit();
    m.on_submit();
    m.record_ttft_us(10);
    m.on_first_token();
    assert_eq!((m.active_sessions, m.queue_depth), (2, 1));
    m.record(5, 20);
    m.on_complete();
    m.on_first_token();
    m.on_complete();
    assert_eq!((m.active_sessions, m.queue_depth), (0, 0));
    m.record_failure();
    assert_eq!((m.requests_total, m.requests_failed, m.ttft_total_us), (1, 1, 10));
}

#[test]
fn counters_wrap_and_durations_saturate() {
    let mut m = Metrics::new();
    m.tokens_generated = u64::MAX;
    m.record(2, u64::MAX);
    assert_eq!(m.tokens_generated, 1);
    assert_eq!(m.decode_total_us, u64::MAX);
    m.record(0, 1);
    assert_eq!(m.decode_total_us, 999);
}

#[test]
fn plain_counters_count() {
    let mut m = PlainMetrics::new();
    m.record(3, 7);
    m.record(4, 8);
    assert_eq!((m.requests_total, m.tokens_generated, m.total_latency_ms), (2, 7, 15));
}
