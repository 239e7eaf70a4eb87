//! A personal shortcut manager: a durable, ordered collection of named
//! shortcuts, each mapping a project name to a command (program plus
//! arguments), together with the logic that turns a stored shortcut into a
//! concrete invocation (path normalization, argument merging, platform
//! dispatch for opening files and folders, and the git commit-and-push
//! sequence).
//!
//! The collection is persisted as a JSON document; the encoder and decoder
//! for that document live in [`codec`] and are proved to round-trip. All
//! filesystem answers (does a path exist, what is its canonical form) and all
//! process spawning are supplied by the caller, so every rule in this crate
//! is checked for every possible answer.

pub mod codec;
pub mod errors;
pub mod resolve;
pub mod shortcut;
pub mod store;
