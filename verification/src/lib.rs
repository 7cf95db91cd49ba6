//! Reader and printer for a small Lisp-like s-expression notation: a
//! tokenizer, a recursive-descent parser with reader-macro expansion, the
//! AST it produces, and a serializer that renders the tree back to
//! canonical text.

pub mod ast;
pub mod error;
pub mod laws;
pub mod printer;
pub mod reader;
pub mod repl;
pub mod text;
