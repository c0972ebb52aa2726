//! skaf: a small configuration language.
//!
//! Source text is split into tokens by [`lex::Lexer`], tokens are grouped
//! into tagged, named objects by [`parser::parse`], and an [`engine::Engine`]
//! checks the objects against registered structures and functions and
//! resolves their field values on demand.

pub mod engine;
pub mod lex;
pub mod parser;
pub mod registry;
pub mod resources;
pub mod semantics;
pub mod structure;
pub mod upperise;
