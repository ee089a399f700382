//! A compiler and an execution engine for Brainfuck programs.
//!
//! `parser` turns source text into a sequence of commands whose loop
//! brackets are resolved to jump targets; `interpreter` runs such a
//! sequence against a growable byte tape.

pub mod interpreter;
pub mod parser;
