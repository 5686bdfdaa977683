//! Lexer for a tiny compiler of `+`/`-` integer expressions: a radix-aware
//! integer scanner, a position-tracking tokenizer with a cursor and caret
//! diagnostics, and a code generator that turns the tokens into instructions.
pub mod codegen;
pub mod libc;
pub mod tokenizer;
