//! A verified compiler for a minimal imperative expression language:
//! integer literals, variables, arithmetic, and print statements, lowered to
//! a textual instruction stream for a 64-bit register machine.
//!
//! The pipeline is tokenizer, recursive-descent parser, and code generator.
//! Each stage carries a contract relating its result to a mathematical
//! description of the language, and the code generator is proved to emit
//! instruction sequences whose machine-level execution prints exactly the
//! values the source program denotes.
pub mod arith;
pub mod ast;
pub mod codegen;
pub mod lexer;
pub mod machine;
pub mod parser;
pub mod render;
pub mod strutil;
