//! Lexing, format-preserving parsing and linting of Hjson documents.
//!
//! Text is turned into tokens by [`Tokens`], the tokens into a concrete
//! syntax tree by [`Parser`], and the tree is checked against a [`Config`]
//! by [`Linter`]. The tree keeps every byte of its input, whitespace and
//! comments included, so that every lint can be placed exactly.
//!
//! [`events`] holds a second, resilient tree builder: it never stops on
//! malformed input, and wraps what it cannot place in error trees.
pub mod ast;
pub mod config;
pub mod conformance;
pub mod events;
pub mod lexer;
pub mod linter;
pub mod parser;
pub mod recognize;
pub mod scan;
pub mod token;

pub use ast::{Array, ArrayMember, MapMember, Node, Object, Value};
pub use config::{AllowDeny, AllowDenyRequire, Config};
pub use lexer::{token, tokenize, Context, Tokens};
pub use linter::{Lint, LintKind, LintSpan, Linter};
pub use parser::{Expected, ParseError, Parser};
pub use recognize::{Boolean, Comment, Key, Null, Number, Symbol, Text, Whitespace};
pub use token::{Cursor, Span, Token, TokenKind};
