//! Byte-oriented scanner for a human-readable, Rust-like data notation.
//!
//! The scanner tokenizes primitive values (booleans, characters, escaped
//! strings, identifiers, integers, float text) from a fully materialized
//! byte buffer while tracking the line/column position of the next unread
//! byte.  A driving grammar pulls one token at a time; every scan either
//! commits its consumption or reports a structured failure.

pub mod chars;
pub mod error;
pub mod escape;
pub mod extensions;
pub mod parse;
