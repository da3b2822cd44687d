//! A lookahead-buffered scanning primitive for building lexers over a
//! pull-based byte stream.
//!
//! The crate is layered: [`iter::SourceBytes`] buffers raw bytes and supports
//! non-destructive lookahead, [`iter::SourceChars`] decodes Unicode scalar
//! values from that byte layer with character-level lookahead, and
//! [`lexer::Scanner`] couples a lookahead source with a [`lexer::Cursor`] to
//! realize mark-extend-commit scanning.

pub mod iter;
pub mod lexer;

pub use iter::SourceBytes;
pub use iter::SourceChars;
pub use lexer::Cursor;
pub use lexer::Scanner;
pub use lexer::Selection;
