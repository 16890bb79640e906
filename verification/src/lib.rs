//! shed: a shell environment declaration compiled to bash, zsh, fish or PowerShell.
//!
//! The pipeline is `parser` (source text to statements), `prune` (fold what the
//! target decides) and `emit` (statements to the target's script), over the
//! syntax tree of `ast` and the character helpers of `text`.

pub mod ast;
pub mod text;
pub mod prune;
pub mod emit;
pub mod parser;
pub mod laws;
