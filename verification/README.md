# Glint

A language-model inference engine with an OpenAI-compatible server and a terminal.
Its logic is a library of Rust code proved against contracts with Verus.

## Layout

`src/` is the verified library.

| Module | What it decides |
|---|---|
| `session` | generation state, and the snapshot format that saves and restores it |
| `cache` | the page pool, per-sequence page tables, and reuse of prompt prefixes |
| `server` | admission, batching, delivery, outcomes, request preparation, responses, streams, counters; in `server::run`, what holds of a request from admission to end; in `server::history`, that the engine's methods make such runs; in `server::sharing`, that shared pages are never written |
| `transformer` | configuration, weight loading, rotary layout, forward-pass schedules, generation, speculative decoding |
| `tensor` | shapes, strides, quantised formats and their unpacking, attention tiles |
| `tui` | keys, state and documents of the terminal |
| `sampling`, `text`, `bytes`, `error` | what the others share |

Numbers with a fraction stay outside: the library holds their bit patterns, the
indices they are found at, and the order in which kernels run on them.

`app/` is ordinary Rust around the library: numeric kernels, the inference thread, the
HTTP server, JSON forms and the screen. `tests/` runs the library on concrete values.

## What is trusted

The contracts of the functions that call `tokio`, `serde_json` and `String::push` are
taken as given; each says so above it. Everything else in `src/` is proved.
