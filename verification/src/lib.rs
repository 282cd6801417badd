//! TOON language tooling: a span-tracking scanner and parser for TOON
//! documents, a TOON encoder, and the pure logic behind the language server
//! and the command-line interface.

pub mod ast;
pub mod cli;
pub mod lsp;
pub mod parser;
pub mod resolve;
pub mod text;
pub mod toon;

