//! Recognise a trailing `{#id .class key="value"}` annotation on a line of
//! text, strip it, and fold the extracted attributes into a node's
//! attribute collection.
//!
//! The scanner reads the input backwards from its final character in a
//! single pass and either consumes a complete, well-formed annotation or
//! leaves the input untouched; there is no partial application. Its
//! behaviour is specified by a recursive state machine over character
//! sequences, and the laws module states and proves the properties the
//! scanner is relied on for.

pub mod laws;
pub mod merge;
pub mod scanner;
pub mod snippet;
