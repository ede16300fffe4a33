//! Glint: the verified core of a local language-model inference server.
use vstd::prelude::*;

pub mod bytes;
pub mod cache;
pub mod error;
pub mod sampling;
pub mod server;
pub mod session;
pub mod tensor;
pub mod text;
pub mod transformer;
pub mod tui;
