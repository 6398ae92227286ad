//! A command-line dispatch library: a registry of subcommand descriptors, a
//! line-oriented codec for it, an argument tokenizer, a `--name=value` flag
//! parser, a binder that matches flags to declared parameters, and a coercion
//! step that turns bound raw strings into typed values for the target call.

pub mod binder;
pub mod coerce;
pub mod cli;
pub mod codec;
pub mod dispatch;
pub mod errors;
pub mod registry;
pub mod text;
