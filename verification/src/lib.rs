//! A minimal coding agent's verified core: tool dispatch and sandboxing,
//! output shaping, streamed reply assembly, configuration resolution and the
//! agent's turn-taking state machine.

pub mod text;
pub mod paths;
pub mod api;
pub mod tools;
pub mod ui;
pub mod config;
pub mod agent;
