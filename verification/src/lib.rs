//! Lexer for semicolon-separated operation sequences.
//!
//! One line of text — typically a keybinding action — is split into a
//! sequence of operations. Each operation is a non-empty list of string
//! tokens: the operation's name followed by its arguments. Tokens are bare
//! words or double-quoted strings with C-like escape sequences; operations
//! are separated by runs of semicolons with optional horizontal whitespace
//! around them, and a parse succeeds only when it consumes the whole line.
//!
//! The grammar is stated once, mathematically, in [`grammar`]; the
//! executable lexer in [`lexer`] is proved to return exactly what the
//! grammar says. [`quoting`] writes a parsed sequence back as one properly
//! quoted line, and [`laws`] proves the round-trip properties relating the
//! two.

pub mod grammar;
pub mod laws;
pub mod lexer;
pub mod quoting;

pub use lexer::tokenize_operation_sequence;
pub use quoting::quote_operation_sequence;
