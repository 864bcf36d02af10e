//! A calculator for one line of arithmetic: a tokenizer, a recursive-descent
//! parser and a tree-walking interpreter.
//!
//! The library never computes with a number itself. A number literal is known
//! by the place it has in the line, and a computed number by sixty-four bits
//! that the caller chose for it. The interpreter names each operation it needs
//! and takes its result from the caller.

pub mod ast;
pub mod error;
pub mod grammar;
pub mod interpreter;
pub mod lexer;
pub mod parser;
pub mod token;
