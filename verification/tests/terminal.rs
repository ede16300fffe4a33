//! The terminal interface.
use glint::server::constraint::{ConstraintSpec, SchemaSpec};
use glint::text::{is_blank, is_white_space, lines_of, numbered, push_hex, trimmed, words_of};
use glint::tui::app::{ActiveTab, App, ChatTurn, InferenceEvent, Knobs, ModelCard};
use glint::tui::document::{Item, Line, Paint};
use glint::tui::events::{
    adjust_setting, handle_key_event, AppAction, Effect, KeyCode, KeyEvent,
};
use glint::tui::ui::{
    format_code_line, render_bottom_input, render_chat_view, render_header, render_lab_view,
    render_settings_drawer, render_telemetry_view, truncate_chars,
};
use glint::tui::worker::{WorkerRun, WorkerStep};

fn app() -> App {
    App::new(
        ModelCard {
            model_name: "smol.gguf".to_string(),
            architecture: "llama".to_string(),
            context_length: 2048,
            embedding_length: 576,
            block_count: 30,
            head_count: 9,
        },
        None,
        Knobs {
            temperature: 0.7f32.to_bits(),
            top_p: 0.9f32.to_bits(),
            top_k: 40,
            repeat_penalty: 1.1f32.to_bits(),
            max_tokens: 512,
        },
    )
}

fn key(code: KeyCode) -> KeyEvent {
    KeyEvent { code, control: false }
}

fn ctrl(code: KeyCode) -> KeyEvent {
    KeyEvent { code, control: true }
}

fn press(a: &mut App, k: KeyEvent) -> Effect {
    let (action, effect) = handle_key_event(a, k);
    assert_eq!(action, AppAction::Continue);
    effect
}

fn typed(a: &mut App, s: &str) {
    for c in s.chars() {
        press(a, key(KeyCode::Char(c)));
    }
}

fn text(l: &Line) -> String {
    l.spans.iter().map(|s| s.text.as_str()).collect()
}

fn texts(i: &Item) -> Vec<String> {
    i.lines.iter().map(text).collect()
}

#[test]
fn interface_starts_with_the_system_prompt() {
    let a = app();
    assert_eq!(a.messages.len(), 1);
    assert_eq!(a.messages[0].role, "system");
    assert!(a.system_prompt.starts_with("You are Glint"));
    assert_eq!(
        a.grammar_input,
        "root ::= \"{\" ws \"\\\"status\\\":\" ws (\"\\\"ok\\\"\" | \"\\\"error\\\"\") ws \"}\"\nws   ::= [ \\t\\n]*"
    );
    let a = App::new(a.model, Some(String::new()), a.knobs);
    assert!(a.messages.is_empty());
}

#[test]
fn typed_text_is_sent() {
    let mut a = app();
    typed(&mut a, "  héllo ");
    assert_eq!(a.input_cursor, 8);
    press(&mut a, key(KeyCode::Backspace));
    assert_eq!((a.input_text.as_str(), a.input_cursor), ("  héllo", 7));
    match press(&mut a, key(KeyCode::Enter)) {
        Effect::Send(req) => {
            assert_eq!(req.messages.len(), 2);
            assert_eq!(req.messages[1].role, "user");
            assert_eq!(req.messages[1].content, "héllo");
            assert!(req.constraint.is_none());
            assert_eq!(req.knobs.max_tokens, 512);
        }
        other => panic!("{other:?}"),
    }
    assert!(a.is_generating && a.input_text.is_empty());
    assert_eq!(a.input_cursor, 0);
    // Nothing is sent while a generation runs, or where nothing has been typed.
    typed(&mut a, "more");
    assert!(matches!(press(&mut a, key(KeyCode::Enter)), Effect::Nothing));
    let mut b = app();
    typed(&mut b, "   ");
    assert!(matches!(press(&mut b, key(KeyCode::Enter)), Effect::Nothing));
    assert_eq!(b.input_text, "   ");
    // Nothing is left to erase.
    let mut c = app();
    press(&mut c, key(KeyCode::Backspace));
    assert_eq!(c.input_cursor, 0);
}

#[test]
fn keys_work_where_they_should() {
    let mut a = app();
    assert_eq!(handle_key_event(&mut a, ctrl(KeyCode::Char('c'))).0, AppAction::Quit);
    press(&mut a, key(KeyCode::F(2)));
    assert_eq!(a.active_tab, ActiveTab::StructuredLab);
    press(&mut a, ctrl(KeyCode::Char('t')));
    assert_eq!(a.lab_mode, 1);
    press(&mut a, ctrl(KeyCode::Char('t')));
    assert_eq!(a.lab_mode, 0);
    press(&mut a, key(KeyCode::F(3)));
    assert_eq!(a.active_tab, ActiveTab::KvTelemetry);
    press(&mut a, key(KeyCode::F(1)));
    press(&mut a, key(KeyCode::PageUp));
    press(&mut a, key(KeyCode::PageUp));
    press(&mut a, key(KeyCode::PageDown));
    assert_eq!(a.chat_scroll, 5);
    press(&mut a, key(KeyCode::PageDown));
    press(&mut a, key(KeyCode::PageDown));
    assert_eq!(a.chat_scroll, 0);
    // Outside the lab the key types a character.
    press(&mut a, ctrl(KeyCode::Char('t')));
    assert_eq!(a.input_text, "t");
    press(&mut a, key(KeyCode::Other));
    assert_eq!(a.input_text, "t");
}

#[test]
fn escape_stops_a_generation_before_it_closes_the_settings() {
    let mut a = app();
    press(&mut a, key(KeyCode::Tab));
    assert!(a.settings_open);
    a.is_generating = true;
    press(&mut a, key(KeyCode::Esc));
    assert!(a.cancel_signal && a.settings_open);
    a.is_generating = false;
    press(&mut a, key(KeyCode::Esc));
    assert!(!a.settings_open);
    press(&mut a, ctrl(KeyCode::Char('s')));
    assert!(a.settings_open);
    press(&mut a, key(KeyCode::Char('x')));
    assert!(a.input_text.is_empty(), "the settings take the keys");
}

#[test]
fn settings_move_within_their_ranges() {
    let mut a = app();
    press(&mut a, key(KeyCode::Tab));
    press(&mut a, key(KeyCode::Up));
    assert_eq!(a.selected_setting, 0);
    assert!(matches!(
        press(&mut a, key(KeyCode::Right)),
        Effect::Nudge { setting: 0, up: true }
    ));
    for _ in 0..9 {
        press(&mut a, key(KeyCode::Down));
    }
    assert_eq!(a.selected_setting, 5);
    assert!(matches!(press(&mut a, key(KeyCode::Left)), Effect::Nothing));
    a.selected_setting = 2;
    press(&mut a, key(KeyCode::Right));
    assert_eq!(a.knobs.top_k, 45);
    for _ in 0..50 {
        adjust_setting(&mut a, true);
    }
    assert_eq!(a.knobs.top_k, 200);
    for _ in 0..50 {
        adjust_setting(&mut a, false);
    }
    assert_eq!(a.knobs.top_k, 0);
    a.selected_setting = 4;
    adjust_setting(&mut a, false);
    assert_eq!(a.knobs.max_tokens, 448);
    for _ in 0..100 {
        adjust_setting(&mut a, false);
    }
    assert_eq!(a.knobs.max_tokens, 16);
    for _ in 0..100 {
        adjust_setting(&mut a, true);
    }
    assert_eq!(a.knobs.max_tokens, 4096);
}

#[test]
fn lab_sends_a_constrained_request() {
    let mut a = app();
    press(&mut a, key(KeyCode::F(2)));
    match press(&mut a, key(KeyCode::Enter)) {
        Effect::Send(req) => {
            assert_eq!(req.messages[0].role, "system");
            assert_eq!(req.messages[1].content, "Output user profile data:");
            assert!(matches!(
                req.constraint,
                Some(ConstraintSpec::JsonSchema(SchemaSpec::Given(s))) if s == a.schema_input
            ));
        }
        other => panic!("{other:?}"),
    }
    assert!(a.is_generating);
    let mut a = app();
    a.active_tab = ActiveTab::StructuredLab;
    a.lab_mode = 1;
    a.schema_input = "no json".to_string();
    match press(&mut a, ctrl(KeyCode::Enter)) {
        Effect::Send(req) => assert!(matches!(req.constraint, Some(ConstraintSpec::Grammar(_)))),
        other => panic!("{other:?}"),
    }
}

#[test]
fn broken_schema_is_reported() {
    let mut a = app();
    a.active_tab = ActiveTab::StructuredLab;
    a.schema_input = "{\"type\": ".to_string();
    assert!(a.submit_lab_request().is_none());
    let e = serde_json::from_str::<serde_json::Value>("{\"type\": ").err().unwrap();
    assert_eq!(a.lab_output, format!("Invalid JSON Schema: {e}"));
    assert!(!a.is_generating);
    assert!(a.submit_lab_with(Some("why".to_string())).is_none());
    assert_eq!(a.lab_output, "Invalid JSON Schema: why");
    assert!(a.submit_lab_with(None).is_some());
    assert_eq!(a.lab_output, "");
}

#[test]
fn finished_answer_joins_the_conversation() {
    let mut a = app();
    a.is_generating = true;
    a.poll_events(&vec![
        InferenceEvent::FirstToken { ttft_ms: 42 },
        InferenceEvent::Token("Hel".to_string()),
    ]);
    assert!(a.is_generating);
    assert_eq!(a.streaming_response, "Hel");
    a.poll_events(&vec![
        InferenceEvent::Token("lo".to_string()),
        InferenceEvent::Done {
            total_tokens: 2,
            tok_per_sec: "12.5".to_string(),
            elapsed_secs: 0.16f64.to_bits(),
        },
    ]);
    assert!(!a.is_generating);
    assert_eq!(a.streaming_response, "");
    let t = a.messages.last().unwrap();
    assert_eq!((t.role.as_str(), t.content.as_str()), ("assistant", "Hello"));
    assert_eq!(t.tok_per_sec.as_deref(), Some("12.5"));
    assert_eq!((t.ttft_ms, t.token_count), (Some(42), Some(2)));
    assert_eq!((a.total_tokens_generated, a.current_tok_per_sec.as_str()), (2, "12.5"));
    assert_eq!(f64::from_bits(a.last_elapsed_secs), 0.16);
}

#[test]
fn lab_output_and_errors_are_shown() {
    let mut a = app();
    a.active_tab = ActiveTab::StructuredLab;
    a.is_generating = true;
    a.poll_events(&vec![
        InferenceEvent::Token("{".to_string()),
        InferenceEvent::Error("boom".to_string()),
    ]);
    assert_eq!(a.lab_output, "{\n[Error: boom]");
    assert!(!a.is_generating);
    assert_eq!(a.messages.len(), 1);
}

#[test]
fn worker_stops_at_its_budget() {
    let mut w = WorkerRun::new(5, 2, 9);
    assert_eq!(w.step(1, false), WorkerStep { announce: true, decode_at: Some(5) });
    assert_eq!(w.step(2, false), WorkerStep { announce: false, decode_at: Some(6) });
    assert_eq!(w.step(3, false), WorkerStep { announce: false, decode_at: None });
    let mut w = WorkerRun::new(5, 2, 9);
    assert_eq!(w.step(9, false), WorkerStep { announce: true, decode_at: None });
    let mut w = WorkerRun::new(5, 2, 9);
    assert_eq!(w.step(1, true), WorkerStep { announce: false, decode_at: None });
}

// ── Views ────────────────────────────────────────────────────────────────────

#[test]
fn empty_chat_greets() {
    let a = app();
    let items = render_chat_view(&a);
    assert_eq!(items.len(), 2);
    assert_eq!(texts(&items[0])[1], "✦ Glint Local Inference");
    assert_eq!(texts(&items[0])[4], "• Press Enter to submit prompt.");
    assert!(texts(&items[1])[0].starts_with("⚙ System: You are Glint"));
}

#[test]
fn answers_are_formatted() {
    let mut a = app();
    a.messages.push(ChatTurn {
        role: "user".to_string(),
        content: "one\r\ntwo\n".to_string(),
        tok_per_sec: None,
        ttft_ms: None,
        token_count: None,
    });
    a.messages.push(ChatTurn {
        role: "assistant".to_string(),
        content: "Text\n  • point\n- dash\n```rust\nlet x = \"a\";\n// note\n```\n* star".to_string(),
        tok_per_sec: Some("12.5".to_string()),
        ttft_ms: Some(42),
        token_count: Some(7),
    });
    let items = render_chat_view(&a);
    assert_eq!(items.len(), 3);
    assert_eq!(texts(&items[1]), vec!["You", "  one", "  two", ""]);
    assert_eq!(
        texts(&items[2]),
        vec![
            "✦ Glint  [ 12.5 tok/s · 42ms TTFT · 7 tokens ]",
            "  Text",
            "  • point",
            "  • dash",
            "  ```rust",
            "    let x = \"a\";",
            "    // note",
            "  ```",
            "  • star",
            "",
        ]
    );
    let code = &items[2].lines[5];
    assert_eq!(code.spans[1].text, "let ");
    assert_eq!(code.spans[1].style.paint, Paint::Secondary);
    assert!(code.spans[1].style.bold);
    assert_eq!(code.spans[4].style.paint, Paint::Primary);
    assert_eq!(items[2].lines[6].spans[1].style.paint, Paint::Muted);
}

#[test]
fn running_answer_is_shown() {
    let mut a = app();
    a.is_generating = true;
    a.streaming_response = "Hel".to_string();
    let items = render_chat_view(&a);
    assert_eq!(
        texts(items.last().unwrap()),
        vec!["✦ Glint  [ generating... ]", "  Hel", "  ▍", ""]
    );
}

#[test]
fn code_words_have_their_colours() {
    let chars: Vec<char> = "  return Some 'x' y".chars().collect();
    let l = format_code_line(&chars);
    let of = |word: &str| l.spans.iter().find(|s| s.text.trim() == word).unwrap().style.paint;
    assert_eq!(of("return"), Paint::Secondary);
    assert_eq!(of("Some"), Paint::PrimaryContainer);
    assert_eq!(of("'x'"), Paint::Primary);
    assert_eq!(of("y"), Paint::Text);
    assert_eq!(text(&l), "      return Some 'x' y");
}

#[test]
fn lab_shows_schema_or_grammar() {
    let mut a = app();
    let v = render_lab_view(&a);
    assert_eq!((v.mode, v.editor_title), (0, " JSON Schema Definition "));
    assert_eq!(v.editor, a.schema_input);
    assert_eq!(v.prompt, "> Output user profile data:");
    assert!(v.output.starts_with("// Constrained tokens"));
    a.lab_mode = 1;
    a.lab_output = "{}".to_string();
    let v = render_lab_view(&a);
    assert_eq!((v.editor_title, v.output), (" GBNF Grammar Rules ", "{}"));
    assert_eq!(v.editor, a.grammar_input);
}

#[test]
fn telemetry_shows_figures() {
    let mut a = app();
    a.current_ttft_ms = 42;
    a.total_tokens_generated = 1234;
    a.kv_used_tokens = 512;
    let v = render_telemetry_view(&a, "25.0");
    assert_eq!(v.speed, "0.0 tok/s");
    assert_eq!(texts(&v.ttft), vec!["", "TTFT: 42 ms"]);
    assert_eq!(texts(&v.tokens), vec!["", "Tokens: 1234"]);
    assert_eq!(v.kv, "512/2048 tokens (25.0%)");
    assert_eq!(
        texts(&v.info),
        vec![
            "Model:          smol.gguf",
            "Architecture:   llama",
            "Context Window: 2048 tokens",
            "Layers / Heads: 30 layers / 9 heads",
        ]
    );
}

#[test]
fn frame_shows_the_state() {
    let mut a = app();
    let h = render_header(&a, "1.5");
    assert_eq!((h.selected_tab, text(&h.badges).as_str()), (0, "● [ LOCAL SIMD ] [ KV: 1.5M ]"));
    assert_eq!(h.badges.spans[0].style.paint, Paint::Secondary);
    let v = render_bottom_input(&a);
    assert_eq!(text(&v.input), "> Type your prompt here...");
    assert!(text(&v.hints).ends_with(" [Tok: 1 / 2048]"));
    a.is_generating = true;
    a.active_tab = ActiveTab::KvTelemetry;
    a.input_text = "ééééé".to_string(); // ten bytes
    let h = render_header(&a, "1.5");
    assert_eq!((h.selected_tab, h.badges.spans[0].style.paint), (2, Paint::PrimaryContainer));
    let v = render_bottom_input(&a);
    assert_eq!(v.title, " Message Glint (Generating... press Esc to stop) ");
    assert_eq!(v.border, Paint::PrimaryContainer);
    assert_eq!(text(&v.input), "> ééééé");
    assert!(text(&v.hints).ends_with(" [Tok: 2 / 2048]"));
}

#[test]
fn settings_mark_the_selected_one() {
    let mut a = app();
    a.selected_setting = 2;
    let item = render_settings_drawer(&a, "0.70", "0.90", "1.10");
    assert_eq!(
        texts(&item),
        vec![
            "   Temperature:     0.70",
            "   Top-P:           0.90",
            " ❯ Top-K:           40",
            "   Repeat Penalty:  1.10",
            "   Max Tokens:      512",
            "   System Prompt:   You are Glint, a...",
        ]
    );
    assert!(item.lines[2].spans[1].style.reversed);
    assert!(!item.lines[1].spans[1].style.reversed);
}

#[test]
fn long_texts_are_cut_by_characters() {
    assert_eq!(truncate_chars("héllo", 3), "hél...");
    assert_eq!(truncate_chars("héllo", 5), "héllo");
    assert_eq!(truncate_chars("", 0), "");
}

// ── Text ─────────────────────────────────────────────────────────────────────

fn chars(s: &str) -> Vec<char> {
    s.chars().collect()
}

fn strings(v: Vec<Vec<char>>) -> Vec<String> {
    v.into_iter().map(|c| c.into_iter().collect()).collect()
}

#[test]
fn texts_split_as_the_standard_library_splits_them() {
    for s in ["", "a", "a\n", "a\r\nb", "\n\n", "a\rb\n\r\n", "x\n\ny\r", "  a b\tc  ", "\u{2003}z"] {
        let want: Vec<&str> = s.lines().collect();
        assert_eq!(strings(lines_of(&chars(s))), want, "{s:?}");
        let want: Vec<&str> = s.split_inclusive(char::is_whitespace).collect();
        assert_eq!(strings(words_of(&chars(s))), want, "{s:?}");
        let got: String = trimmed(&chars(s)).into_iter().collect();
        assert_eq!(got, s.trim(), "{s:?}");
        assert_eq!(is_blank(s), s.trim().is_empty(), "{s:?}");
    }
}

#[test]
fn white_space_is_what_the_standard_library_says() {
    for n in 0..=0x10ffffu32 {
        if let Some(c) = char::from_u32(n) {
            assert_eq!(is_white_space(c), c.is_whitespace(), "{n:x}");
        }
    }
}

#[test]
fn numbers_are_written_out() {
    for n in [0u64, 9, 10, 123, u64::MAX] {
        assert_eq!(numbered("<", n, ">"), format!("<{n}>"));
        let mut s = String::new();
        push_hex(&mut s, n);
        assert_eq!(s, format!("{n:x}"));
    }
}
