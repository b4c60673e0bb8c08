//! Decision and text-handling logic of a pointer-gesture launcher: where
//! gesture templates and configuration files live, how a template file is
//! laid out, which configured command belongs to a recognized gesture, and
//! which stored template is the closest match.
pub mod commands;
pub mod locations;
pub mod matching;
pub mod template;
