//! A grammar-driven source-to-source transpiler: a compiler for the two
//! grammar notations, a backtracking parser that runs a source grammar over
//! text, and a generator that renders the resulting tree under an output
//! grammar.

pub mod ast;
pub mod diagnostics;
pub mod generator;
pub mod input_grammar;
pub mod layout;
pub mod lexer;
pub mod meta_parser;
pub mod output_grammar;
pub mod parse_laws;
pub mod parse_model;
pub mod parser;
pub mod pattern;
pub mod report;
pub mod text;
