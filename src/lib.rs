//! A compiler for a small register language: source text is split into tokens,
//! parsed into statements, and compiled into assembly for an 8-bit processor
//! with 16-bit register pairs.

pub mod codegen;
pub mod lexer;
pub mod parser;
mod text;
