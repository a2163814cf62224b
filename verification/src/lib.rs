//! Path and URL hint picking for terminal pane text.
pub mod text;
pub mod tokenize;
pub mod paths;
pub mod browse;
pub mod classify;
pub mod herdr_ipc;
pub mod hint;
pub mod overlay;
pub mod open;
pub mod json;
pub mod cli;
