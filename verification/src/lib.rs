//! sproutx: a system-wide text expander. This crate holds the verified core:
//! the trigger matcher, the template renderer, the configuration and layout
//! parsers, the key-event decisions and the keystroke planner.

pub mod text;
pub mod order;
pub mod config;
pub mod engine;
pub mod template;
pub mod keys;
pub mod capture;
pub mod log;
pub mod daemon;
pub mod ipc;
pub mod cli;
