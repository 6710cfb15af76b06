//! A single-pass JSON tokenizer over an in-memory character source.
//!
//! The `tokenizer` module parses a byte sequence, read one character at a
//! time, into a tree of JSON values by recursive descent, threading a
//! one-character lookahead between steps.  The `model` module holds the
//! mathematical description of that grammar, which the executable parser is
//! proved to follow exactly.  The `repetition` module holds the arithmetic of
//! a simple read-throughput measurement harness.

pub mod model;
pub mod repetition;
pub mod tokenizer;
