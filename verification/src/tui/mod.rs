//! The terminal interface: its state, its keys and what it shows.
pub mod app;
pub mod document;
pub mod events;
pub mod ui;
pub mod worker;
