//! A small dynamically typed scripting language: a lexer, a Pratt parser and
//! a tree-walking evaluator with closures, arrays, maps and built-in functions.
//!
//! Every stage carries a mathematical model: source text is a `Seq<char>`,
//! tokens are related to the text they come from by `lexer::scanned`, syntax
//! trees have views (`ExprV`, `StmtV`), runtime values have views (`ObjV`)
//! and environments are an arena of scopes viewed as `Seq<ScopeV>`.
//! The parser and the evaluator are proved equal to spec functions over
//! those models.

pub mod ast;
pub mod builtins;
pub mod environment;
pub mod error;
pub mod evaluator;
pub mod lexer;
pub mod object;
pub mod parser;
pub mod text;
pub mod token;
