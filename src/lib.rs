//! Signed message envelopes and the execution contract of pluggable runtimes.

pub mod json;
pub mod message;
pub mod runtime;
