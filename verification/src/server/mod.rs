//! The OpenAI-compatible server: engine decisions, wire types, routes, metrics.
pub mod batch;
pub mod constraint;
pub mod deliver;
pub mod engine;
pub mod history;
pub mod ids;
pub mod metrics;
pub mod prepare;
pub mod reserve;
pub mod respond;
pub mod run;
pub mod sharing;
pub mod state;
pub mod stream;
pub mod types;
