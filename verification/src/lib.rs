//! Extraction of structured metadata from leading source-file comments, and
//! rendering of a Markdown report over the collected records.
//!
//! The heart of the crate is [`lexer`]: a character-level scanner that
//! recognises `identifier: value` declarations inside comment lines and emits
//! a typed token stream. [`report`] holds the record types and the Markdown
//! rendering, [`cli`] the pure part of argument handling, and [`text`] the
//! shared string utilities together with their specifications.

pub mod cli;
pub mod lexer;
pub mod report;
pub mod text;
