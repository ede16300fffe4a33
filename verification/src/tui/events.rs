//! What the keys do.
use vstd::prelude::*;

use crate::text::{chars_of, push_char, string_of};
use crate::tui::app::{
    entered, is_turn, json_fault, lab_submitted, repeats, ActiveTab, App, InferenceRequest, Knobs,
};

verus! {

/// Whether the interface goes on.
#[derive(Clone, Copy, Debug, PartialEq, Eq, Structural)]
pub enum AppAction {
    Continue,
    Quit,
}

/// The keys that the interface knows.
#[derive(Clone, Copy, Debug, PartialEq, Eq, Structural)]
pub enum KeyCode {
    Char(char),
    F(u8),
    Enter,
    Esc,
    Tab,
    Backspace,
    Up,
    Down,
    Left,
    Right,
    PageUp,
    PageDown,
    Other,
}

/// A pressed key.
#[derive(Clone, Copy, Debug, PartialEq, Eq, Structural)]
pub struct KeyEvent {
    pub code: KeyCode,
    pub control: bool,
}

/// What is left to do after a key.
#[derive(Debug)]
pub enum Effect {
    Nothing,
    /// Send a request to the worker.
    Send(InferenceRequest),
    /// Move a floating-point knob one step up or down.
    Nudge { setting: usize, up: bool },
}

/// What a key does in a given state.
#[derive(Clone, Copy, Debug, PartialEq, Eq, Structural)]
pub enum Meaning {
    Quit,
    Cancel,
    CloseSettings,
    ToggleSettings,
    Show(ActiveTab),
    PreviousSetting,
    NextSetting,
    Adjust { up: bool },
    ToggleLabMode,
    SubmitLab,
    SubmitChat,
    Type(char),
    Erase,
    ScrollUp,
    ScrollDown,
    Nothing,
}

/// What a key does. Quitting comes first; Escape stops a generation or closes the
/// settings; while the settings are open the arrows work on them and everything else
/// waits; the rest goes to the tab that is shown.
pub open spec fn meaning(app: App, key: KeyEvent) -> Meaning {
    let lab = app.active_tab == ActiveTab::StructuredLab;
    if key.control && key.code == KeyCode::Char('c') {
        Meaning::Quit
    } else if key.code == KeyCode::Esc && app.is_generating {
        Meaning::Cancel
    } else if key.code == KeyCode::Esc && app.settings_open {
        Meaning::CloseSettings
    } else if key.code == KeyCode::Tab || (key.control && key.code == KeyCode::Char('s')) {
        Meaning::ToggleSettings
    } else if key.code == KeyCode::F(1) {
        Meaning::Show(ActiveTab::Chat)
    } else if key.code == KeyCode::F(2) {
        Meaning::Show(ActiveTab::StructuredLab)
    } else if key.code == KeyCode::F(3) {
        Meaning::Show(ActiveTab::KvTelemetry)
    } else if app.settings_open {
        match key.code {
            KeyCode::Up => Meaning::PreviousSetting,
            KeyCode::Down => Meaning::NextSetting,
            KeyCode::Left => Meaning::Adjust { up: false },
            KeyCode::Right => Meaning::Adjust { up: true },
            _ => Meaning::Nothing,
        }
    } else if lab && key.control && key.code == KeyCode::Char('t') {
        Meaning::ToggleLabMode
    } else {
        match key.code {
            KeyCode::Enter => if lab {
                Meaning::SubmitLab
            } else {
                Meaning::SubmitChat
            },
            KeyCode::Char(c) => Meaning::Type(c),
            KeyCode::Backspace => Meaning::Erase,
            KeyCode::PageUp => Meaning::ScrollUp,
            KeyCode::PageDown => Meaning::ScrollDown,
            _ => Meaning::Nothing,
        }
    }
}

/// What a key does.
pub fn meaning_of(app: &App, key: KeyEvent) -> (m: Meaning)
    ensures
        m == meaning(*app, key),
{
    let lab = app.active_tab == ActiveTab::StructuredLab;
    if key.control && key.code == KeyCode::Char('c') {
        return Meaning::Quit;
    }
    if key.code == KeyCode::Esc {
        if app.is_generating {
            return Meaning::Cancel;
        } else if app.settings_open {
            return Meaning::CloseSettings;
        }
    }
    if key.code == KeyCode::Tab || (key.control && key.code == KeyCode::Char('s')) {
        return Meaning::ToggleSettings;
    }
    match key.code {
        KeyCode::F(1) => {
            return Meaning::Show(ActiveTab::Chat);
        },
        KeyCode::F(2) => {
            return Meaning::Show(ActiveTab::StructuredLab);
        },
        KeyCode::F(3) => {
            return Meaning::Show(ActiveTab::KvTelemetry);
        },
        _ => {},
    }
    if app.settings_open {
        return match key.code {
            KeyCode::Up => Meaning::PreviousSetting,
            KeyCode::Down => Meaning::NextSetting,
            KeyCode::Left => Meaning::Adjust { up: false },
            KeyCode::Right => Meaning::Adjust { up: true },
            _ => Meaning::Nothing,
        };
    }
    if lab && key.control && key.code == KeyCode::Char('t') {
        return Meaning::ToggleLabMode;
    }
    match key.code {
        KeyCode::Enter => if lab {
            Meaning::SubmitLab
        } else {
            Meaning::SubmitChat
        },
        KeyCode::Char(c) => Meaning::Type(c),
        KeyCode::Backspace => Meaning::Erase,
        KeyCode::PageUp => Meaning::ScrollUp,
        KeyCode::PageDown => Meaning::ScrollDown,
        _ => Meaning::Nothing,
    }
}

// ── Settings ─────────────────────────────────────────────────────────────────

/// `n`, moved into a range.
pub open spec fn clamped(n: int, low: int, high: int) -> int {
    if n < low {
        low
    } else if n > high {
        high
    } else {
        n
    }
}

/// A knob one step up or down, within its range. The knob is read as a signed 32-bit
/// number.
pub open spec fn stepped(value: usize, up: bool, step: int, low: int, high: int) -> int {
    clamped(
        value as i32 + if up {
            step
        } else {
            -step
        },
        low,
        high,
    )
}

/// The knobs after an adjustment of setting `i`: the number of candidates moves by
/// five up to two hundred, the budget by sixty-four between sixteen and four thousand
/// and ninety-six. The other settings are no whole numbers.
pub open spec fn adjusted(k: Knobs, i: usize, up: bool) -> Knobs {
    if i == 2 {
        Knobs { top_k: stepped(k.top_k, up, 5, 0, 200) as usize, ..k }
    } else if i == 4 {
        Knobs { max_tokens: stepped(k.max_tokens, up, 64, 16, 4096) as usize, ..k }
    } else {
        k
    }
}

fn step_knob(value: usize, up: bool, step: i64, low: i64, high: i64) -> (r: usize)
    requires
        0 <= low <= high <= 4096,
        0 <= step <= 64,
    ensures
        r == stepped(value, up, step as int, low as int, high as int),
{
    let base: i64 = (value as i32) as i64;
    let moved: i64 = if up {
        base + step
    } else {
        base - step
    };
    if moved < low {
        low as usize
    } else if moved > high {
        high as usize
    } else {
        moved as usize
    }
}

/// True for the settings that are floating-point numbers.
pub open spec fn is_fraction(setting: usize) -> bool {
    setting == 0 || setting == 1 || setting == 3
}

/// Move the selected setting one step up or down. A floating-point knob is left to the
/// caller.
pub fn adjust_setting(app: &mut App, up: bool) -> (e: Effect)
    ensures
        *final(app) == (App {
            knobs: adjusted(old(app).knobs, old(app).selected_setting, up),
            ..*old(app)
        }),
        if is_fraction(old(app).selected_setting) {
            e == (Effect::Nudge { setting: old(app).selected_setting, up })
        } else {
            e is Nothing
        },
{
    let i: usize = app.selected_setting;
    if i == 2 {
        app.knobs.top_k = step_knob(app.knobs.top_k, up, 5, 0, 200);
        Effect::Nothing
    } else if i == 4 {
        app.knobs.max_tokens = step_knob(app.knobs.max_tokens, up, 64, 16, 4096);
        Effect::Nothing
    } else if i == 0 || i == 1 || i == 3 {
        Effect::Nudge { setting: i, up }
    } else {
        Effect::Nothing
    }
}

/// An adjusted knob lies within its range.
pub proof fn law_adjusted_knobs_stay_in_range(k: Knobs, up: bool)
    ensures
        0 <= adjusted(k, 2, up).top_k <= 200,
        16 <= adjusted(k, 4, up).max_tokens <= 4096,
{
}

// ── Keys ─────────────────────────────────────────────────────────────────────

/// `n` five lower, zero at the least.
pub open spec fn less_five(n: usize) -> usize {
    if n < 5 {
        0
    } else {
        (n - 5) as usize
    }
}

/// `n` five higher, the largest number at the most.
pub open spec fn plus_five(n: usize) -> usize {
    if n > usize::MAX - 5 {
        usize::MAX
    } else {
        (n + 5) as usize
    }
}

/// The chat input was sent, or nothing happened.
pub open spec fn chat_submitted(before: App, after: App, e: Effect) -> bool {
    if before.is_generating || entered(before).len() == 0 {
        e is Nothing && after == before
    } else {
        &&& e matches Effect::Send(req)
        &&& after.messages@.len() == before.messages@.len() + 1
        &&& after.messages@.drop_last() == before.messages@
        &&& is_turn(after.messages@.last(), "user"@, entered(before))
        &&& repeats(req.messages@, after.messages@)
        &&& req.knobs == before.knobs
        &&& req.constraint is None
        &&& after.input_text@.len() == 0
        &&& after.streaming_response@.len() == 0
        &&& after == (App {
            messages: after.messages,
            input_text: after.input_text,
            input_cursor: 0,
            streaming_response: after.streaming_response,
            is_generating: true,
            cancel_signal: false,
            ..before
        })
    }
}

/// The state after a key with that meaning.
pub open spec fn reacted(before: App, after: App, m: Meaning, e: Effect) -> bool {
    match m {
        Meaning::Quit | Meaning::Nothing => after == before && e is Nothing,
        Meaning::Cancel => after == (App { cancel_signal: true, ..before }) && e is Nothing,
        Meaning::CloseSettings => after == (App { settings_open: false, ..before })
            && e is Nothing,
        Meaning::ToggleSettings => after == (App {
            settings_open: !before.settings_open,
            ..before
        }) && e is Nothing,
        Meaning::Show(tab) => after == (App { active_tab: tab, ..before }) && e is Nothing,
        Meaning::PreviousSetting => e is Nothing && after == (App {
            selected_setting: (if before.selected_setting > 0 {
                before.selected_setting - 1
            } else {
                0
            }) as usize,
            ..before
        }),
        Meaning::NextSetting => e is Nothing && after == (App {
            selected_setting: (if before.selected_setting < 5 {
                before.selected_setting + 1
            } else {
                before.selected_setting as int
            }) as usize,
            ..before
        }),
        Meaning::Adjust { up } => {
            &&& after == (App {
                knobs: adjusted(before.knobs, before.selected_setting, up),
                ..before
            })
            &&& if is_fraction(before.selected_setting) {
                e == (Effect::Nudge { setting: before.selected_setting, up })
            } else {
                e is Nothing
            }
        },
        Meaning::ToggleLabMode => e is Nothing && after == (App {
            lab_mode: ((before.lab_mode + 1) % 2) as usize,
            ..before
        }),
        Meaning::SubmitLab => {
            &&& e is Nothing || e is Send
            &&& lab_submitted(
                before,
                after,
                json_fault(before.schema_input@),
                match e {
                    Effect::Send(req) => Some(req),
                    _ => None,
                },
            )
        },
        Meaning::SubmitChat => chat_submitted(before, after, e),
        Meaning::Type(c) => {
            &&& e is Nothing
            &&& after.input_text@ == before.input_text@.push(c)
            &&& after == (App {
                input_text: after.input_text,
                input_cursor: (before.input_cursor + 1) as usize,
                ..before
            })
        },
        Meaning::Erase => e is Nothing && if before.input_text@.len() == 0 {
            after == before
        } else {
            &&& after.input_text@ == before.input_text@.drop_last()
            &&& after == (App {
                input_text: after.input_text,
                input_cursor: (before.input_cursor - 1) as usize,
                ..before
            })
        },
        Meaning::ScrollUp => e is Nothing && after == (App {
            chat_scroll: plus_five(before.chat_scroll),
            ..before
        }),
        Meaning::ScrollDown => e is Nothing && after == (App {
            chat_scroll: less_five(before.chat_scroll),
            ..before
        }),
    }
}

/// React to a key.
pub fn handle_key_event(app: &mut App, key: KeyEvent) -> (r: (AppAction, Effect))
    requires
        old(app).wf(),
        old(app).input_text@.len() < usize::MAX,
    ensures
        final(app).wf(),
        r.0 == if meaning(*old(app), key) == Meaning::Quit {
            AppAction::Quit
        } else {
            AppAction::Continue
        },
        reacted(*old(app), *final(app), meaning(*old(app), key), r.1),
{
    let m = meaning_of(app, key);
    match m {
        Meaning::Quit => (AppAction::Quit, Effect::Nothing),
        Meaning::Nothing => (AppAction::Continue, Effect::Nothing),
        Meaning::Cancel => {
            app.cancel_generation();
            (AppAction::Continue, Effect::Nothing)
        },
        Meaning::CloseSettings => {
            app.settings_open = false;
            (AppAction::Continue, Effect::Nothing)
        },
        Meaning::ToggleSettings => {
            app.settings_open = !app.settings_open;
            (AppAction::Continue, Effect::Nothing)
        },
        Meaning::Show(tab) => {
            app.active_tab = tab;
            (AppAction::Continue, Effect::Nothing)
        },
        Meaning::PreviousSetting => {
            if app.selected_setting > 0 {
                app.selected_setting = app.selected_setting - 1;
            }
            (AppAction::Continue, Effect::Nothing)
        },
        Meaning::NextSetting => {
            if app.selected_setting < 5 {
                app.selected_setting = app.selected_setting + 1;
            }
            (AppAction::Continue, Effect::Nothing)
        },
        Meaning::Adjust { up } => {
            let e = adjust_setting(app, up);
            (AppAction::Continue, e)
        },
        Meaning::ToggleLabMode => {
            app.lab_mode = (app.lab_mode + 1) % 2;
            (AppAction::Continue, Effect::Nothing)
        },
        Meaning::SubmitLab => match app.submit_lab_request() {
            Some(req) => (AppAction::Continue, Effect::Send(req)),
            None => (AppAction::Continue, Effect::Nothing),
        },
        Meaning::SubmitChat => match app.submit_user_message() {
            Some(req) => (AppAction::Continue, Effect::Send(req)),
            None => (AppAction::Continue, Effect::Nothing),
        },
        Meaning::Type(c) => {
            push_char(&mut app.input_text, c);
            app.input_cursor = app.input_cursor + 1;
            (AppAction::Continue, Effect::Nothing)
        },
        Meaning::Erase => {
            let mut chars = chars_of(app.input_text.as_str());
            let n: usize = chars.len();
            if n > 0 {
                chars.truncate(n - 1);
                app.input_text = string_of(chars.as_slice());
                assert(app.input_text@ =~= old(app).input_text@.drop_last());
                app.input_cursor = app.input_cursor - 1;
            }
            (AppAction::Continue, Effect::Nothing)
        },
        Meaning::ScrollUp => {
            app.chat_scroll = if app.chat_scroll > usize::MAX - 5 {
                usize::MAX
            } else {
                app.chat_scroll + 5
            };
            (AppAction::Continue, Effect::Nothing)
        },
        Meaning::ScrollDown => {
            app.chat_scroll = if app.chat_scroll < 5 {
                0
            } else {
                app.chat_scroll - 5
            };
            (AppAction::Continue, Effect::Nothing)
        },
    }
}

/// Erasing undoes typing: a typed character and an erased one leave the input as it
/// was.
pub proof fn law_erasing_undoes_typing(a: App, b: App, c: App, ch: char, e1: Effect, e2: Effect)
    requires
        a.wf(),
        a.input_text@.len() < usize::MAX,
        reacted(a, b, Meaning::Type(ch), e1),
        reacted(b, c, Meaning::Erase, e2),
    ensures
        c.input_text@ == a.input_text@,
        c.input_cursor == a.input_cursor,
{
    assert(c.input_text@ =~= a.input_text@);
}

/// Opening and closing the settings changes nothing else.
pub proof fn law_toggling_settings_twice_changes_nothing(
    a: App,
    b: App,
    c: App,
    e1: Effect,
    e2: Effect,
)
    requires
        reacted(a, b, Meaning::ToggleSettings, e1),
        reacted(b, c, Meaning::ToggleSettings, e2),
    ensures
        c == a,
{
}

/// While a generation runs no key starts another one.
pub proof fn law_one_generation_at_a_time(before: App, after: App, key: KeyEvent, e: Effect)
    requires
        before.is_generating,
        reacted(before, after, meaning(before, key), e),
    ensures
        e !is Send,
        after.is_generating,
{
}

/// What keys do wherever they are pressed. Control-C quits and only that does; Escape stops
/// a generation or else closes the settings; Tab and Control-S open and close the settings;
/// the first three function keys show the tabs.
pub proof fn law_keys_work_everywhere(before: App, after: App, key: KeyEvent, e: Effect)
    requires
        reacted(before, after, meaning(before, key), e),
    ensures
        meaning(before, key) == Meaning::Quit <==> key.control && key.code == KeyCode::Char('c'),
        key.code == KeyCode::Esc && before.is_generating ==> after == (App {
            cancel_signal: true,
            ..before
        }),
        key.code == KeyCode::Esc && !before.is_generating ==> after == (App {
            settings_open: false,
            ..before
        }),
        key.code == KeyCode::Tab || key.control && key.code == KeyCode::Char('s') ==> after == (
        App { settings_open: !before.settings_open, ..before }),
        key.code == KeyCode::F(1) ==> after == (App { active_tab: ActiveTab::Chat, ..before }),
        key.code == KeyCode::F(2) ==> after == (App {
            active_tab: ActiveTab::StructuredLab,
            ..before
        }),
        key.code == KeyCode::F(3) ==> after == (App {
            active_tab: ActiveTab::KvTelemetry,
            ..before
        }),
        e is Send ==> key.code == KeyCode::Enter && !before.is_generating && !before.settings_open,
{
}

/// While the settings are open the arrows choose among the six settings and move the chosen
/// one, the number of candidates by five and the budget by sixty-four as far as they go.
/// Nothing is typed or sent.
pub proof fn law_arrows_work_on_open_settings(before: App, after: App, key: KeyEvent, e: Effect)
    requires
        before.settings_open,
        reacted(before, after, meaning(before, key), e),
        before.selected_setting <= 5,
        before.knobs.top_k <= 200,
        16 <= before.knobs.max_tokens <= 4096,
    ensures
        e !is Send,
        after.input_text@ == before.input_text@,
        after.messages == before.messages,
        after.selected_setting <= 5,
        key.code == KeyCode::Up ==> before.selected_setting == 0 || after.selected_setting
            == before.selected_setting - 1,
        key.code == KeyCode::Down ==> before.selected_setting == 5 || after.selected_setting
            == before.selected_setting + 1,
        key.code == KeyCode::Right && before.selected_setting == 2 ==> after.knobs.top_k
            == before.knobs.top_k + 5 || after.knobs.top_k == 200 && before.knobs.top_k > 195,
        key.code == KeyCode::Left && before.selected_setting == 2 ==> after.knobs.top_k
            == before.knobs.top_k - 5 || after.knobs.top_k == 0 && before.knobs.top_k < 5,
        key.code == KeyCode::Right && before.selected_setting == 4 ==> after.knobs.max_tokens
            == before.knobs.max_tokens + 64 || after.knobs.max_tokens == 4096
            && before.knobs.max_tokens > 4032,
        key.code == KeyCode::Left && before.selected_setting == 4 ==> after.knobs.max_tokens
            == before.knobs.max_tokens - 64 || after.knobs.max_tokens == 16
            && before.knobs.max_tokens < 80,
{
}

/// While the settings are closed a character is typed behind the others, the last one is
/// erased, and the conversation scrolls by five lines and back.
pub proof fn law_closed_settings_let_text_in(before: App, after: App, key: KeyEvent, e: Effect)
    requires
        !before.settings_open,
        !key.control,
        reacted(before, after, meaning(before, key), e),
        5 <= before.chat_scroll <= usize::MAX - 5,
    ensures
        key.code matches KeyCode::Char(c) ==> after.input_text@ == before.input_text@.push(c),
        key.code == KeyCode::Backspace && before.input_text@.len() > 0 ==> after.input_text@
            == before.input_text@.drop_last(),
        key.code == KeyCode::PageUp ==> after.chat_scroll == before.chat_scroll + 5,
        key.code == KeyCode::PageDown ==> after.chat_scroll == before.chat_scroll - 5,
        key.code == KeyCode::Enter && before.active_tab != ActiveTab::StructuredLab
            && !before.is_generating && entered(before).len() > 0 ==> e is Send
            && after.messages@.len() == before.messages@.len() + 1 && is_turn(
            after.messages@.last(),
            "user"@,
            entered(before),
        ) && after.input_text@.len() == 0,
{
}

} // verus!
