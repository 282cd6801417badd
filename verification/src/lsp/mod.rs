//! The pure logic behind the language server: position conversions and
//! the analyses the server answers requests with.

pub mod ast_utils;
pub mod code_actions;
pub mod code_lens;
pub mod completion;
pub mod diagnostics;
pub mod document_highlight;
pub mod document_links;
pub mod folding;
pub mod formatting;
pub mod goto;
pub mod hover;
pub mod inlay_hints;
pub mod linked_editing;
pub mod references;
pub mod rename;
pub mod selection_ranges;
pub mod semantic_tokens;
pub mod symbols;
pub mod utf16;
pub mod workspace_symbols;

pub use semantic_tokens::{SemanticToken, ToonTokenModifier, ToonTokenType};
pub use utf16::{span_to_range, utf16_to_utf8_col, utf8_to_utf16_col, LspPosition, LspRange};
