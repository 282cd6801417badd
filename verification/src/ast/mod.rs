//! Abstract syntax tree for TOON documents, with source spans.

pub mod node;
pub mod span;

pub use node::{ArrayForm, AstNode, NumberValue, ObjectEntry};
pub use span::{Position, Span};
