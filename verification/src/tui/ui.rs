//! What the terminal interface shows.
use vstd::prelude::*;

use crate::text::{
    chars_of, contents, decimal, lines, lines_of, numbered, push_decimal, same_text, string_of,
    trim, trim_start, trimmed, trimmed_start, words, words_of,
};
use crate::tui::app::{ActiveTab, App, ChatTurn};
use crate::tui::document::{
    add_item, blocks, bold, line1, line2, line3, pieces, plain, rows, Item, Line, Paint, Piece,
    Style,
};

verus! {

/// A piece of text in a style.
pub open spec fn piece(text: Seq<char>, style: Style) -> Piece {
    Piece { text, style }
}

// ── Chat ─────────────────────────────────────────────────────────────────────

/// `s` starts with `prefix`.
pub open spec fn begins(s: Seq<char>, prefix: Seq<char>) -> bool {
    prefix.len() <= s.len() && s.take(prefix.len() as int) == prefix
}

fn begins_with(v: &[char], prefix: &str) -> (b: bool)
    ensures
        b == begins(v@, prefix@),
{
    let p = chars_of(prefix);
    if p.len() > v.len() {
        return false;
    }
    let mut i: usize = 0;
    while i < p.len()
        invariant
            p@ == prefix@,
            p@.len() <= v@.len(),
            i <= p@.len(),
            forall|k: int| 0 <= k < i ==> v@[k] == p@[k],
        decreases p@.len() - i,
    {
        if v[i] != p[i] {
            assert(v@.take(p@.len() as int)[i as int] == v@[i as int]);
            return false;
        }
        i = i + 1;
    }
    assert(v@.take(p@.len() as int) =~= p@);
    true
}

/// What an empty chat shows.
pub open spec fn welcome() -> Seq<Seq<Piece>> {
    seq![
        Seq::empty(),
        seq![piece("✦ Glint Local Inference"@, bold(Paint::Primary))],
        seq![
            piece(
                "Private, instant, zero-dependency autoregressive generation."@,
                plain(Paint::Muted),
            ),
        ],
        Seq::empty(),
        seq![
            piece("• Press "@, plain(Paint::Dim)),
            piece("Enter"@, bold(Paint::Primary)),
            piece(" to submit prompt."@, plain(Paint::Dim)),
        ],
        seq![
            piece("• Press "@, plain(Paint::Dim)),
            piece("Tab / Ctrl+S"@, bold(Paint::Primary)),
            piece(" to open Parameters drawer."@, plain(Paint::Dim)),
        ],
        seq![
            piece("• Press "@, plain(Paint::Dim)),
            piece("F1 / F2 / F3"@, bold(Paint::Primary)),
            piece(" to switch between Chat, Structured Lab, and Telemetry."@, plain(Paint::Dim)),
        ],
    ]
}

fn render_welcome() -> (item: Item)
    ensures
        rows(item) == welcome(),
{
    let mut item = Item::new();
    item.blank();
    item.add(line1("✦ Glint Local Inference", Style::bold(Paint::Primary)));
    item.add(
        line1(
            "Private, instant, zero-dependency autoregressive generation.",
            Style::plain(Paint::Muted),
        ),
    );
    item.blank();
    item.add(
        line3(
            "• Press ",
            Style::plain(Paint::Dim),
            "Enter",
            Style::bold(Paint::Primary),
            " to submit prompt.",
            Style::plain(Paint::Dim),
        ),
    );
    item.add(
        line3(
            "• Press ",
            Style::plain(Paint::Dim),
            "Tab / Ctrl+S",
            Style::bold(Paint::Primary),
            " to open Parameters drawer.",
            Style::plain(Paint::Dim),
        ),
    );
    item.add(
        line3(
            "• Press ",
            Style::plain(Paint::Dim),
            "F1 / F2 / F3",
            Style::bold(Paint::Primary),
            " to switch between Chat, Structured Lab, and Telemetry.",
            Style::plain(Paint::Dim),
        ),
    );
    assert(rows(item) =~= welcome());
    item
}

/// A line of ordinary text, indented.
pub open spec fn text_line(line: Seq<char>) -> Seq<Piece> {
    seq![piece("  "@, plain(Paint::Plain)), piece(line, plain(Paint::Text))]
}

/// Lines of ordinary text.
pub open spec fn text_lines(text: Seq<char>) -> Seq<Seq<Piece>> {
    Seq::new(lines(text).len(), |i: int| text_line(lines(text)[i]))
}

/// A system turn.
pub open spec fn system_item(text: Seq<char>) -> Seq<Seq<Piece>> {
    seq![
        seq![piece("⚙ System: "@, bold(Paint::Muted)), piece(text, plain(Paint::Dim))],
        Seq::empty(),
    ]
}

/// A turn of the user.
pub open spec fn user_item(text: Seq<char>) -> Seq<Seq<Piece>> {
    (seq![seq![piece("You"@, bold(Paint::Muted))]] + text_lines(text)).push(Seq::empty())
}

/// The speed of an answer.
pub open spec fn pill(t: ChatTurn) -> Seq<char> {
    "  [ "@ + t.tok_per_sec->0@ + " tok/s · "@ + decimal(t.ttft_ms->0 as nat) + "ms TTFT"@ + (
    match t.token_count {
        Some(n) => " · "@ + decimal(n as nat) + " tokens"@,
        None => Seq::empty(),
    }) + " ]"@
}

/// The head of an answer: its speed is shown where it has been measured.
pub open spec fn answer_head(t: ChatTurn) -> Seq<Piece> {
    let name = piece("✦ Glint"@, bold(Paint::Primary));
    if t.tok_per_sec is Some && t.ttft_ms is Some {
        seq![name, piece(pill(t), plain(Paint::Muted))]
    } else {
        seq![name]
    }
}

/// A line that opens or closes a block of code.
pub open spec fn is_fence(line: Seq<char>) -> bool {
    begins(trim_start(line), "```"@)
}

/// True if line `i` comes behind an opening fence that has not been closed.
pub open spec fn in_code(ls: Seq<Seq<char>>, i: int) -> bool
    decreases i,
{
    if i <= 0 {
        false
    } else if is_fence(ls[i - 1]) {
        !in_code(ls, i - 1)
    } else {
        in_code(ls, i - 1)
    }
}

/// The text behind a bullet.
pub open spec fn bullet_rest(line: Seq<char>) -> Option<Seq<char>> {
    let t = trim_start(line);
    if begins(t, "•"@) || begins(t, "-"@) || begins(t, "*"@) {
        Some(t.skip(1))
    } else {
        None
    }
}

/// A keyword of some language.
pub open spec fn is_keyword(word: Seq<char>) -> bool {
    ||| word == "def"@
    ||| word == "fn"@
    ||| word == "let"@
    ||| word == "mut"@
    ||| word == "pub"@
    ||| word == "struct"@
    ||| word == "enum"@
    ||| word == "impl"@
    ||| word == "return"@
    ||| word == "import"@
    ||| word == "from"@
    ||| word == "class"@
    ||| word == "async"@
    ||| word == "await"@
}

/// A value that languages spell out.
pub open spec fn is_value(word: Seq<char>) -> bool {
    ||| word == "true"@
    ||| word == "false"@
    ||| word == "None"@
    ||| word == "Some"@
    ||| word == "Ok"@
    ||| word == "Err"@
    ||| word == "nil"@
}

/// How a word of code looks.
pub open spec fn word_style(word: Seq<char>) -> Style {
    let w = trim(word);
    if is_keyword(w) {
        bold(Paint::Secondary)
    } else if is_value(w) {
        plain(Paint::PrimaryContainer)
    } else if w.len() > 0 && (w[0] == '"' || w[0] == '\'') {
        plain(Paint::Primary)
    } else {
        plain(Paint::Text)
    }
}

/// A line of code: a comment in one colour, else every word in its own.
pub open spec fn code_line(line: Seq<char>) -> Seq<Piece> {
    let indent = seq![piece("    "@, plain(Paint::Plain))];
    let t = trim(line);
    if begins(t, "//"@) || begins(t, "#"@) {
        indent.push(piece(line, plain(Paint::Muted)))
    } else {
        indent + Seq::new(words(line).len(), |i: int| piece(words(line)[i], word_style(words(line)[i])))
    }
}

fn keyword(word: &str) -> (b: bool)
    ensures
        b == is_keyword(word@),
{
    same_text(word, "def") || same_text(word, "fn") || same_text(word, "let") || same_text(word, "mut") || same_text(word, "pub") || same_text(word, "struct") || same_text(word, "enum") || same_text(word, "impl") || same_text(word, "return") || same_text(word, "import") || same_text(word, "from") || same_text(word, "class") || same_text(word, "async") || same_text(word, "await")
}

fn spelled_value(word: &str) -> (b: bool)
    ensures
        b == is_value(word@),
{
    same_text(word, "true") || same_text(word, "false") || same_text(word, "None") || same_text(word, "Some") || same_text(word, "Ok") || same_text(word, "Err") || same_text(word, "nil")
}

fn style_of_word(word: &[char]) -> (s: Style)
    ensures
        s == word_style(word@),
{
    let w = trimmed(word);
    let t = string_of(w.as_slice());
    if keyword(t.as_str()) {
        Style::bold(Paint::Secondary)
    } else if spelled_value(t.as_str()) {
        Style::plain(Paint::PrimaryContainer)
    } else if w.len() > 0 && (w[0] == '"' || w[0] == '\'') {
        Style::plain(Paint::Primary)
    } else {
        Style::plain(Paint::Text)
    }
}

/// Colour a line of code.
pub fn format_code_line(line: &[char]) -> (l: Line)
    ensures
        pieces(l) == code_line(line@),
{
    let mut l = line1("    ", Style::plain(Paint::Plain));
    let ghost indent = seq![piece("    "@, plain(Paint::Plain))];
    assert(pieces(l) =~= indent);
    let t = trimmed(line);
    if begins_with(t.as_slice(), "//") || begins_with(t.as_slice(), "#") {
        l.add(string_of(line).as_str(), Style::plain(Paint::Muted));
    } else {
        let ws = words_of(line);
        let ghost all = words(line@);
        let mut i: usize = 0;
        while i < ws.len()
            invariant
                i <= ws@.len(),
                contents(ws@) == all,
                pieces(l) == indent + Seq::new(
                    i as nat,
                    |k: int| piece(all[k], word_style(all[k])),
                ),
            decreases ws@.len() - i,
        {
            let ghost before = pieces(l);
            assert(contents(ws@)[i as int] == ws@[i as int]@);
            l.add(string_of(ws[i].as_slice()).as_str(), style_of_word(ws[i].as_slice()));
            i = i + 1;
            assert(pieces(l) =~= indent + Seq::new(
                i as nat,
                |k: int| piece(all[k], word_style(all[k])),
            ));
        }
        assert(ws@.len() == contents(ws@).len());
        assert(pieces(l) =~= code_line(line@));
    }
    l
}

/// Line `i` of an answer.
pub open spec fn answer_line(ls: Seq<Seq<char>>, i: int) -> Seq<Piece> {
    let line = ls[i];
    if is_fence(line) {
        seq![piece("  "@, plain(Paint::Plain)), piece(line, plain(Paint::Muted))]
    } else if in_code(ls, i) {
        code_line(line)
    } else if bullet_rest(line) is Some {
        seq![piece("  •"@, bold(Paint::Primary)), piece(bullet_rest(line)->0, plain(Paint::Text))]
    } else {
        text_line(line)
    }
}

/// An answer of the model: its head, then its lines.
pub open spec fn answer_item(t: ChatTurn) -> Seq<Seq<Piece>> {
    let ls = lines(t.content@);
    (seq![answer_head(t)] + Seq::new(ls.len(), |i: int| answer_line(ls, i))).push(Seq::empty())
}

/// One turn of the conversation.
pub open spec fn turn_item(t: ChatTurn) -> Seq<Seq<Piece>> {
    if t.role@ == "system"@ {
        system_item(t.content@)
    } else if t.role@ == "user"@ {
        user_item(t.content@)
    } else {
        answer_item(t)
    }
}

/// The answer that is being generated.
pub open spec fn stream_item(text: Seq<char>) -> Seq<Seq<Piece>> {
    (seq![
        seq![
            piece("✦ Glint"@, bold(Paint::Primary)),
            piece("  [ generating... ]"@, plain(Paint::PrimaryContainer)),
        ],
    ] + text_lines(text)).push(seq![piece("  ▍"@, plain(Paint::Primary))]).push(Seq::empty())
}

/// True if anything has been said but by the system.
pub open spec fn has_conversation(turns: Seq<ChatTurn>) -> bool {
    exists|i: int| 0 <= i < turns.len() && (#[trigger] turns[i]).role@ != "system"@
}

/// The chat: a greeting as long as nothing has been said, the turns, and the answer
/// that is being generated.
pub open spec fn chat_view(app: App) -> Seq<Seq<Seq<Piece>>> {
    let greeting = if !has_conversation(app.messages@) && app.streaming_response@.len() == 0 {
        seq![welcome()]
    } else {
        Seq::empty()
    };
    let turns = Seq::new(app.messages@.len(), |i: int| turn_item(app.messages@[i]));
    let stream = if app.is_generating || app.streaming_response@.len() > 0 {
        seq![stream_item(app.streaming_response@)]
    } else {
        Seq::empty()
    };
    greeting + turns + stream
}

fn add_text_lines(item: &mut Item, text: &str)
    ensures
        rows(*final(item)) == rows(*old(item)) + text_lines(text@),
{
    let ls = lines_of(chars_of(text).as_slice());
    let ghost all = lines(text@);
    let mut i: usize = 0;
    assert(rows(*item) =~= rows(*old(item)) + Seq::new(0, |k: int| text_line(all[k])));
    while i < ls.len()
        invariant
            i <= ls@.len(),
            contents(ls@) == all,
            rows(*item) == rows(*old(item)) + Seq::new(i as nat, |k: int| text_line(all[k])),
        decreases ls@.len() - i,
    {
        assert(contents(ls@)[i as int] == ls@[i as int]@);
        item.add(
            line2(
                "  ",
                Style::plain(Paint::Plain),
                string_of(ls[i].as_slice()).as_str(),
                Style::plain(Paint::Text),
            ),
        );
        i = i + 1;
        assert(rows(*item) =~= rows(*old(item)) + Seq::new(i as nat, |k: int| text_line(all[k])));
    }
    assert(ls@.len() == contents(ls@).len());
    assert(rows(*item) =~= rows(*old(item)) + text_lines(text@));
}

fn render_system(text: &str) -> (item: Item)
    ensures
        rows(item) == system_item(text@),
{
    let mut item = Item::new();
    item.add(line2("⚙ System: ", Style::bold(Paint::Muted), text, Style::plain(Paint::Dim)));
    item.blank();
    assert(rows(item) =~= system_item(text@));
    item
}

fn render_user(text: &str) -> (item: Item)
    ensures
        rows(item) == user_item(text@),
{
    let mut item = Item::new();
    item.add(line1("You", Style::bold(Paint::Muted)));
    assert(rows(item) =~= seq![seq![piece("You"@, bold(Paint::Muted))]]);
    add_text_lines(&mut item, text);
    item.blank();
    item
}

fn pill_text(speed: &str, ttft_ms: u64, token_count: Option<usize>) -> (s: String)
    ensures
        s@ == "  [ "@ + speed@ + " tok/s · "@ + decimal(ttft_ms as nat) + "ms TTFT"@ + (
        match token_count {
            Some(n) => " · "@ + decimal(n as nat) + " tokens"@,
            None => Seq::empty(),
        }) + " ]"@,
{
    let mut s = String::new();
    s.append("  [ ");
    s.append(speed);
    s.append(" tok/s · ");
    push_decimal(&mut s, ttft_ms);
    s.append("ms TTFT");
    let ghost head = s@;
    match token_count {
        Some(n) => {
            s.append(" · ");
            push_decimal(&mut s, n as u64);
            s.append(" tokens");
            assert(s@ =~= head + (" · "@ + decimal(n as nat) + " tokens"@));
        },
        None => {
            assert(s@ =~= head + Seq::<char>::empty());
        },
    }
    s.append(" ]");
    s
}

fn render_answer_head(t: &ChatTurn) -> (l: Line)
    ensures
        pieces(l) == answer_head(*t),
{
    let mut l = line1("✦ Glint", Style::bold(Paint::Primary));
    match (&t.tok_per_sec, t.ttft_ms) {
        (Some(speed), Some(ttft_ms)) => {
            l.add(
                pill_text(speed.as_str(), ttft_ms, t.token_count).as_str(),
                Style::plain(Paint::Muted),
            );
        },
        _ => {},
    }
    assert(pieces(l) =~= answer_head(*t));
    l
}

fn render_answer_line(line: &[char], inside: bool, Ghost(ls): Ghost<Seq<Seq<char>>>, Ghost(i): Ghost<
    int,
>) -> (l: Line)
    requires
        line@ == ls[i],
        inside == in_code(ls, i),
    ensures
        pieces(l) == answer_line(ls, i),
{
    let t = trimmed_start(line);
    if begins_with(t.as_slice(), "```") {
        line2(
            "  ",
            Style::plain(Paint::Plain),
            string_of(line).as_str(),
            Style::plain(Paint::Muted),
        )
    } else if inside {
        format_code_line(line)
    } else if begins_with(t.as_slice(), "•") || begins_with(t.as_slice(), "-") || begins_with(
        t.as_slice(),
        "*",
    ) {
        proof {
            reveal_strlit("•");
            reveal_strlit("-");
            reveal_strlit("*");
        }
        let rest = vstd::slice::slice_subrange(t.as_slice(), 1, t.len());
        assert(rest@ =~= t@.skip(1));
        line2(
            "  •",
            Style::bold(Paint::Primary),
            string_of(rest).as_str(),
            Style::plain(Paint::Text),
        )
    } else {
        line2(
            "  ",
            Style::plain(Paint::Plain),
            string_of(line).as_str(),
            Style::plain(Paint::Text),
        )
    }
}

fn render_answer(t: &ChatTurn) -> (item: Item)
    ensures
        rows(item) == answer_item(*t),
{
    let mut item = Item::new();
    item.add(render_answer_head(t));
    let ls = lines_of(chars_of(t.content.as_str()).as_slice());
    let ghost all = lines(t.content@);
    let ghost head = seq![answer_head(*t)];
    let mut inside = false;
    let mut i: usize = 0;
    assert(rows(item) =~= head + Seq::new(0, |k: int| answer_line(all, k)));
    while i < ls.len()
        invariant
            i <= ls@.len(),
            contents(ls@) == all,
            inside == in_code(all, i as int),
            rows(item) == head + Seq::new(i as nat, |k: int| answer_line(all, k)),
        decreases ls@.len() - i,
    {
        assert(contents(ls@)[i as int] == ls@[i as int]@);
        item.add(render_answer_line(ls[i].as_slice(), inside, Ghost(all), Ghost(i as int)));
        if begins_with(trimmed_start(ls[i].as_slice()).as_slice(), "```") {
            inside = !inside;
        }
        i = i + 1;
        assert(rows(item) =~= head + Seq::new(i as nat, |k: int| answer_line(all, k)));
    }
    assert(ls@.len() == contents(ls@).len());
    item.blank();
    assert(rows(item) =~= answer_item(*t));
    item
}

fn render_turn(t: &ChatTurn) -> (item: Item)
    ensures
        rows(item) == turn_item(*t),
{
    if same_text(t.role.as_str(), "system") {
        render_system(t.content.as_str())
    } else if same_text(t.role.as_str(), "user") {
        render_user(t.content.as_str())
    } else {
        render_answer(t)
    }
}

fn render_stream(text: &str) -> (item: Item)
    ensures
        rows(item) == stream_item(text@),
{
    let mut item = Item::new();
    item.add(
        line2(
            "✦ Glint",
            Style::bold(Paint::Primary),
            "  [ generating... ]",
            Style::plain(Paint::PrimaryContainer),
        ),
    );
    assert(rows(item) =~= seq![
        seq![
            piece("✦ Glint"@, bold(Paint::Primary)),
            piece("  [ generating... ]"@, plain(Paint::PrimaryContainer)),
        ],
    ]);
    add_text_lines(&mut item, text);
    item.add(line1("  ▍", Style::plain(Paint::Primary)));
    item.blank();
    item
}

fn any_conversation(turns: &Vec<ChatTurn>) -> (b: bool)
    ensures
        b == has_conversation(turns@),
{
    let mut i: usize = 0;
    while i < turns.len()
        invariant
            i <= turns@.len(),
            forall|k: int| 0 <= k < i ==> (#[trigger] turns@[k]).role@ == "system"@,
        decreases turns@.len() - i,
    {
        if !same_text(turns[i].role.as_str(), "system") {
            return true;
        }
        i = i + 1;
    }
    false
}

/// The chat.
pub fn render_chat_view(app: &App) -> (items: Vec<Item>)
    ensures
        blocks(items@) == chat_view(*app),
{
    let mut items: Vec<Item> = Vec::new();
    assert(blocks(items@) =~= Seq::empty());
    let quiet = app.streaming_response.as_str().is_empty();
    if !any_conversation(&app.messages) && quiet {
        add_item(&mut items, render_welcome());
    }
    let ghost greeting = blocks(items@);
    let ghost turns = Seq::new(app.messages@.len(), |k: int| turn_item(app.messages@[k]));
    let mut i: usize = 0;
    assert(greeting + turns.take(0) =~= greeting);
    while i < app.messages.len()
        invariant
            i <= app.messages@.len(),
            turns == Seq::new(app.messages@.len(), |k: int| turn_item(app.messages@[k])),
            blocks(items@) == greeting + turns.take(i as int),
        decreases app.messages@.len() - i,
    {
        add_item(&mut items, render_turn(&app.messages[i]));
        i = i + 1;
        assert(blocks(items@) =~= greeting + turns.take(i as int));
    }
    assert(turns.take(i as int) =~= turns);
    if app.is_generating || !quiet {
        add_item(&mut items, render_stream(app.streaming_response.as_str()));
    }
    assert(blocks(items@) =~= chat_view(*app));
    items
}

/// Every turn of the conversation is shown, in order.
pub proof fn law_chat_shows_every_turn(app: App, i: int)
    requires
        0 <= i < app.messages@.len(),
    ensures
        ({
            let greetings: int = if !has_conversation(app.messages@)
                && app.streaming_response@.len() == 0 {
                1
            } else {
                0
            };
            chat_view(app)[greetings + i] == turn_item(app.messages@[i])
        }),
{
}

// ── Lab ──────────────────────────────────────────────────────────────────────

/// The lab.
#[derive(Debug)]
pub struct LabView<'a> {
    pub mode: usize,
    pub editor_title: &'static str,
    pub editor: &'a str,
    pub prompt: String,
    pub output: &'a str,
}

/// The lab: the editor shows the schema or the grammar, the output what has come so
/// far.
pub fn render_lab_view(app: &App) -> (v: LabView<'_>)
    ensures
        v.mode == app.lab_mode,
        v.editor_title@ == if app.lab_mode == 0 {
            " JSON Schema Definition "@
        } else {
            " GBNF Grammar Rules "@
        },
        v.editor@ == if app.lab_mode == 0 {
            app.schema_input@
        } else {
            app.grammar_input@
        },
        v.prompt@ == "> "@ + app.lab_prompt@,
        v.output@ == if app.lab_output@.len() == 0 {
            "// Constrained tokens conforming strictly to schema will appear here..."@
        } else {
            app.lab_output@
        },
{
    let mut prompt = String::new();
    prompt.append("> ");
    prompt.append(app.lab_prompt.as_str());
    assert(prompt@ =~= "> "@ + app.lab_prompt@);
    LabView {
        mode: app.lab_mode,
        editor_title: if app.lab_mode == 0 {
            " JSON Schema Definition "
        } else {
            " GBNF Grammar Rules "
        },
        editor: if app.lab_mode == 0 {
            app.schema_input.as_str()
        } else {
            app.grammar_input.as_str()
        },
        prompt,
        output: if app.lab_output.as_str().is_empty() {
            "// Constrained tokens conforming strictly to schema will appear here..."
        } else {
            app.lab_output.as_str()
        },
    }
}

// ── Telemetry ────────────────────────────────────────────────────────────────

/// The figures of the telemetry tab.
#[derive(Debug)]
pub struct TelemetryView {
    pub speed: String,
    pub ttft: Item,
    pub tokens: Item,
    pub kv: String,
    pub info: Item,
}

/// A figure with its name.
pub open spec fn figure(name: Seq<char>, paint: Paint, value: Seq<char>) -> Seq<Seq<Piece>> {
    seq![Seq::empty(), seq![piece(name, bold(paint)), piece(value, bold(Paint::Text))]]
}

/// What is known of the model.
pub open spec fn info_rows(app: App) -> Seq<Seq<Piece>> {
    let m = app.model;
    seq![
        seq![
            piece("Model:          "@, plain(Paint::Muted)),
            piece(m.model_name@, bold(Paint::Primary)),
        ],
        seq![
            piece("Architecture:   "@, plain(Paint::Muted)),
            piece(m.architecture@, plain(Paint::Secondary)),
        ],
        seq![
            piece("Context Window: "@, plain(Paint::Muted)),
            piece(decimal(m.context_length as nat) + " tokens"@, plain(Paint::Text)),
        ],
        seq![
            piece("Layers / Heads: "@, plain(Paint::Muted)),
            piece(
                decimal(m.block_count as nat) + " layers / "@ + decimal(m.head_count as nat)
                    + " heads"@,
                plain(Paint::Text),
            ),
        ],
    ]
}

fn render_figure(name: &str, paint: Paint, value: &str) -> (item: Item)
    ensures
        rows(item) == figure(name@, paint, value@),
{
    let mut item = Item::new();
    item.blank();
    item.add(line2(name, Style::bold(paint), value, Style::bold(Paint::Text)));
    assert(rows(item) =~= figure(name@, paint, value@));
    item
}

fn plain_number(n: u64, suffix: &str) -> (s: String)
    ensures
        s@ == decimal(n as nat) + suffix@,
{
    let mut s = String::new();
    push_decimal(&mut s, n);
    s.append(suffix);
    assert(s@ =~= decimal(n as nat) + suffix@);
    s
}

fn render_info(app: &App) -> (item: Item)
    ensures
        rows(item) == info_rows(*app),
{
    let m = &app.model;
    let mut item = Item::new();
    item.add(
        line2(
            "Model:          ",
            Style::plain(Paint::Muted),
            m.model_name.as_str(),
            Style::bold(Paint::Primary),
        ),
    );
    item.add(
        line2(
            "Architecture:   ",
            Style::plain(Paint::Muted),
            m.architecture.as_str(),
            Style::plain(Paint::Secondary),
        ),
    );
    item.add(
        line2(
            "Context Window: ",
            Style::plain(Paint::Muted),
            plain_number(m.context_length as u64, " tokens").as_str(),
            Style::plain(Paint::Text),
        ),
    );
    let mut sizes = plain_number(m.block_count as u64, " layers / ");
    push_decimal(&mut sizes, m.head_count as u64);
    sizes.append(" heads");
    item.add(
        line2(
            "Layers / Heads: ",
            Style::plain(Paint::Muted),
            sizes.as_str(),
            Style::plain(Paint::Text),
        ),
    );
    assert(rows(item) =~= info_rows(*app));
    item
}

/// The telemetry tab. `kv_percent` is the share of the context window in use, with one
/// decimal.
pub fn render_telemetry_view(app: &App, kv_percent: &str) -> (v: TelemetryView)
    ensures
        v.speed@ == app.current_tok_per_sec@ + " tok/s"@,
        rows(v.ttft) == figure(
            "TTFT: "@,
            Paint::Primary,
            decimal(app.current_ttft_ms as nat) + " ms"@,
        ),
        rows(v.tokens) == figure(
            "Tokens: "@,
            Paint::Secondary,
            decimal(app.total_tokens_generated as nat),
        ),
        v.kv@ == decimal(app.kv_used_tokens as nat) + "/"@ + decimal(
            app.model.context_length as nat,
        ) + " tokens ("@ + kv_percent@ + "%)"@,
        rows(v.info) == info_rows(*app),
{
    let mut speed = app.current_tok_per_sec.clone();
    speed.append(" tok/s");
    let mut total = String::new();
    push_decimal(&mut total, app.total_tokens_generated as u64);
    assert(total@ =~= decimal(app.total_tokens_generated as nat));
    let mut kv = plain_number(app.kv_used_tokens as u64, "/");
    push_decimal(&mut kv, app.model.context_length as u64);
    kv.append(" tokens (");
    kv.append(kv_percent);
    kv.append("%)");
    TelemetryView {
        speed,
        ttft: render_figure(
            "TTFT: ",
            Paint::Primary,
            plain_number(app.current_ttft_ms, " ms").as_str(),
        ),
        tokens: render_figure("Tokens: ", Paint::Secondary, total.as_str()),
        kv,
        info: render_info(app),
    }
}

// ── Header ───────────────────────────────────────────────────────────────────

/// The place of a tab in the header.
pub open spec fn tab_index(tab: ActiveTab) -> usize {
    match tab {
        ActiveTab::Chat => 0,
        ActiveTab::StructuredLab => 1,
        ActiveTab::KvTelemetry => 2,
    }
}

/// The header.
#[derive(Debug)]
pub struct HeaderView {
    pub selected_tab: usize,
    pub badges: Line,
}

/// The header: the tab that is shown, whether a generation runs, and the memory in use
/// (in megabytes, with one decimal).
pub fn render_header(app: &App, kv_megabytes: &str) -> (v: HeaderView)
    ensures
        v.selected_tab == tab_index(app.active_tab),
        pieces(v.badges) == seq![
            piece(
                "● "@,
                plain(
                    if app.is_generating {
                        Paint::PrimaryContainer
                    } else {
                        Paint::Secondary
                    },
                ),
            ),
            piece("[ LOCAL SIMD ] "@, plain(Paint::Muted)),
            piece("[ KV: "@ + kv_megabytes@ + "M ]"@, plain(Paint::Text)),
        ],
{
    let mut kv = String::new();
    kv.append("[ KV: ");
    kv.append(kv_megabytes);
    kv.append("M ]");
    let light = if app.is_generating {
        Paint::PrimaryContainer
    } else {
        Paint::Secondary
    };
    HeaderView {
        selected_tab: match app.active_tab {
            ActiveTab::Chat => 0,
            ActiveTab::StructuredLab => 1,
            ActiveTab::KvTelemetry => 2,
        },
        badges: line3(
            "● ",
            Style::plain(light),
            "[ LOCAL SIMD ] ",
            Style::plain(Paint::Muted),
            kv.as_str(),
            Style::plain(Paint::Text),
        ),
    }
}

// ── Settings ─────────────────────────────────────────────────────────────────

/// `s`, cut to `max` characters; a cut is marked.
pub open spec fn cut(s: Seq<char>, max: nat) -> Seq<char> {
    if s.len() > max {
        s.take(max as int) + "..."@
    } else {
        s
    }
}

/// `s`, cut to `max` characters. Characters are counted, not bytes, so none is split.
pub fn truncate_chars(s: &str, max: usize) -> (r: String)
    ensures
        r@ == cut(s@, max as nat),
{
    let mut chars = chars_of(s);
    if chars.len() > max {
        chars.truncate(max);
        assert(chars@ =~= s@.take(max as int));
        let mut r = string_of(chars.as_slice());
        r.append("...");
        r
    } else {
        s.to_string()
    }
}

/// The settings, in order. Floating-point knobs are given with two decimals.
pub open spec fn setting_texts(
    app: App,
    temperature: Seq<char>,
    top_p: Seq<char>,
    repeat_penalty: Seq<char>,
) -> Seq<Seq<char>> {
    seq![
        "Temperature:     "@ + temperature,
        "Top-P:           "@ + top_p,
        "Top-K:           "@ + decimal(app.knobs.top_k as nat),
        "Repeat Penalty:  "@ + repeat_penalty,
        "Max Tokens:      "@ + decimal(app.knobs.max_tokens as nat),
        "System Prompt:   "@ + cut(app.system_prompt@, 16),
    ]
}

/// One line of the settings; the selected one is marked.
pub open spec fn setting_line(text: Seq<char>, selected: bool) -> Seq<Piece> {
    seq![
        piece(
            if selected {
                " ❯ "@
            } else {
                "   "@
            },
            plain(Paint::Primary),
        ),
        piece(
            text,
            if selected {
                Style { paint: Paint::Primary, bold: true, reversed: true }
            } else {
                plain(Paint::Text)
            },
        ),
    ]
}

fn labelled(label: &str, value: &str) -> (s: String)
    ensures
        s@ == label@ + value@,
{
    let mut s = String::new();
    s.append(label);
    s.append(value);
    assert(s@ =~= label@ + value@);
    s
}

fn render_setting(text: &str, selected: bool) -> (l: Line)
    ensures
        pieces(l) == setting_line(text@, selected),
{
    if selected {
        line2(
            " ❯ ",
            Style::plain(Paint::Primary),
            text,
            Style { paint: Paint::Primary, bold: true, reversed: true },
        )
    } else {
        line2("   ", Style::plain(Paint::Primary), text, Style::plain(Paint::Text))
    }
}

/// The settings.
pub fn render_settings_drawer(app: &App, temperature: &str, top_p: &str, repeat_penalty: &str) -> (
    item: Item)
    ensures
        rows(item).len() == 6,
        forall|i: int|
            0 <= i < 6 ==> #[trigger] rows(item)[i] == setting_line(
                setting_texts(*app, temperature@, top_p@, repeat_penalty@)[i],
                i == app.selected_setting,
            ),
{
    let sel: usize = app.selected_setting;
    let mut item = Item::new();
    item.add(render_setting(labelled("Temperature:     ", temperature).as_str(), sel == 0));
    item.add(render_setting(labelled("Top-P:           ", top_p).as_str(), sel == 1));
    item.add(
        render_setting(
            labelled(
                "Top-K:           ",
                plain_number(app.knobs.top_k as u64, "").as_str(),
            ).as_str(),
            sel == 2,
        ),
    );
    item.add(render_setting(labelled("Repeat Penalty:  ", repeat_penalty).as_str(), sel == 3));
    item.add(
        render_setting(
            labelled(
                "Max Tokens:      ",
                plain_number(app.knobs.max_tokens as u64, "").as_str(),
            ).as_str(),
            sel == 4,
        ),
    );
    item.add(
        render_setting(
            labelled(
                "System Prompt:   ",
                truncate_chars(app.system_prompt.as_str(), 16).as_str(),
            ).as_str(),
            sel == 5,
        ),
    );
    proof {
        reveal_strlit("");
        assert(""@ =~= Seq::empty());
        assert(decimal(app.knobs.top_k as nat) + ""@ =~= decimal(app.knobs.top_k as nat));
        assert(decimal(app.knobs.max_tokens as nat) + ""@ =~= decimal(
            app.knobs.max_tokens as nat,
        ));
    }
    item
}

// ── Input ────────────────────────────────────────────────────────────────────

/// The bottom of the screen.
#[derive(Debug)]
pub struct InputView {
    pub title: &'static str,
    pub border: Paint,
    pub input: Line,
    pub hints: Line,
}

/// A rough guess at the tokens of a text: one for four bytes, at least one.
pub open spec fn estimated_tokens(text: Seq<char>) -> nat {
    let bytes = vstd::utf8::encode_utf8(text).len() as usize;
    if bytes / 4 < 1 {
        1
    } else {
        (bytes / 4) as nat
    }
}

/// The keys, and how full the context window would be.
pub open spec fn hint_pieces(app: App) -> Seq<Piece> {
    seq![
        piece(" [Enter] "@, bold(Paint::Primary)),
        piece("Send  "@, plain(Paint::Muted)),
        piece("[Tab / Ctrl+S] "@, bold(Paint::Primary)),
        piece("Settings  "@, plain(Paint::Muted)),
        piece("[F1-F3] "@, bold(Paint::Primary)),
        piece("Tabs  "@, plain(Paint::Muted)),
        piece("[Esc] "@, bold(Paint::Primary)),
        piece("Stop  "@, plain(Paint::Muted)),
        piece("[Ctrl+C] "@, bold(Paint::Red)),
        piece("Quit  "@, plain(Paint::Muted)),
        piece(
            " [Tok: "@ + decimal(estimated_tokens(app.input_text@)) + " / "@ + decimal(
                app.model.context_length as nat,
            ) + "]"@,
            plain(Paint::Muted),
        ),
    ]
}

fn render_hints(app: &App) -> (l: Line)
    ensures
        pieces(l) == hint_pieces(*app),
{
    let bytes: usize = app.input_text.as_str().len();
    let guess: usize = if bytes / 4 < 1 {
        1
    } else {
        bytes / 4
    };
    let mut count = numbered(" [Tok: ", guess as u64, " / ");
    push_decimal(&mut count, app.model.context_length as u64);
    count.append("]");
    let mut l = Line::new();
    l.add(" [Enter] ", Style::bold(Paint::Primary));
    l.add("Send  ", Style::plain(Paint::Muted));
    l.add("[Tab / Ctrl+S] ", Style::bold(Paint::Primary));
    l.add("Settings  ", Style::plain(Paint::Muted));
    l.add("[F1-F3] ", Style::bold(Paint::Primary));
    l.add("Tabs  ", Style::plain(Paint::Muted));
    l.add("[Esc] ", Style::bold(Paint::Primary));
    l.add("Stop  ", Style::plain(Paint::Muted));
    l.add("[Ctrl+C] ", Style::bold(Paint::Red));
    l.add("Quit  ", Style::plain(Paint::Muted));
    l.add(count.as_str(), Style::plain(Paint::Muted));
    assert(pieces(l) =~= hint_pieces(*app));
    l
}

/// The bottom of the screen: the input, or an invitation to type, and the keys.
pub fn render_bottom_input(app: &App) -> (v: InputView)
    ensures
        v.title@ == if app.is_generating {
            " Message Glint (Generating... press Esc to stop) "@
        } else {
            " Message Glint (Enter to send, Ctrl+S for Settings) "@
        },
        v.border == if app.is_generating {
            Paint::PrimaryContainer
        } else {
            Paint::Primary
        },
        pieces(v.input) == seq![
            piece("> "@, bold(Paint::Primary)),
            if app.input_text@.len() == 0 {
                piece("Type your prompt here..."@, plain(Paint::BorderWarm))
            } else {
                piece(app.input_text@, plain(Paint::Text))
            },
        ],
        pieces(v.hints) == hint_pieces(*app),
{
    let input = if app.input_text.as_str().is_empty() {
        line2(
            "> ",
            Style::bold(Paint::Primary),
            "Type your prompt here...",
            Style::plain(Paint::BorderWarm),
        )
    } else {
        line2(
            "> ",
            Style::bold(Paint::Primary),
            app.input_text.as_str(),
            Style::plain(Paint::Text),
        )
    };
    InputView {
        title: if app.is_generating {
            " Message Glint (Generating... press Esc to stop) "
        } else {
            " Message Glint (Enter to send, Ctrl+S for Settings) "
        },
        border: if app.is_generating {
            Paint::PrimaryContainer
        } else {
            Paint::Primary
        },
        input,
        hints: render_hints(app),
    }
}

} // verus!
