//! A personal task-time tracker: named tasks, at most one running session at
//! a time, accumulated whole-minute totals, and a persistent document that is
//! serialized to and parsed from a stable textual format.

pub mod errors;
pub mod strings;
pub mod num;
pub mod time;
pub mod model;
pub mod codec;
pub mod engine;
